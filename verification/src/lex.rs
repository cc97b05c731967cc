//! Tokens and the lexer that produces them from source text.
use crate::lexical::{
    attrs_at, attrs_from, colon_at, doctype_word, first_line_len, has_doctype, levels_after,
    levels_at, levels_left, lex, lex_from, newline_at, scan_at, selector_at, slash_at, spanning,
    tag_at, text_at, top_level, value_at, LexErrorKind, Lexed, Scan,
};
use crate::text::{
    blank, char_width, chars_of, decimal, decimal_text, index_at, is_boundary, is_letter,
    lemma_offset_end, lemma_offset_monotonic, lemma_offset_step, lemma_run_len,
    lemma_utf8_len_is_encoded_len, letter, offset, printable, run_len, text_of, utf8_len,
    CharClass,
};
use vstd::prelude::*;
use vstd::string::StringExecFns;

verus! {

/// What a token is, as plain values.
pub enum SpecTokenType {
    Doctype(Seq<char>),
    NewLine,
    Tag(Seq<char>),
    Id(Seq<char>),
    Class(Seq<char>),
    Attr(Seq<char>, Seq<char>),
    Text(Seq<char>),
    Colon,
    Indent,
    Outdent,
    Slash,
}

impl SpecTokenType {
    /// The kind in words, with what it carries in parentheses.
    pub open spec fn text(self) -> Seq<char> {
        match self {
            SpecTokenType::Doctype(name) => "Doctype("@ + name + ")"@,
            SpecTokenType::NewLine => "NewLine"@,
            SpecTokenType::Tag(name) => "Tag("@ + name + ")"@,
            SpecTokenType::Id(name) => "Id("@ + name + ")"@,
            SpecTokenType::Class(name) => "Class("@ + name + ")"@,
            SpecTokenType::Attr(name, value) => "Attr("@ + name + ", "@ + value + ")"@,
            SpecTokenType::Text(body) => "Text("@ + body + ")"@,
            SpecTokenType::Colon => "Colon"@,
            SpecTokenType::Indent => "Indent"@,
            SpecTokenType::Outdent => "Outdent"@,
            SpecTokenType::Slash => "Slash"@,
        }
    }
}

/// A token as plain values: its kind, and the byte range `start..end` of the
/// source text that it was read from.
pub struct SpecToken {
    pub ty: SpecTokenType,
    pub start: nat,
    pub end: nat,
}

impl SpecToken {
    /// The token as `<kind: start..end>`.
    pub open spec fn text(self) -> Seq<char> {
        "<"@ + self.ty.text() + ": "@ + decimal(self.start) + ".."@ + decimal(self.end) + ">"@
    }
}

/// The kind of a token, with the text that it carries.
#[derive(PartialEq, Debug)]
pub enum TokenType {
    /// `doctype <name>`, on the first line only.
    Doctype(String),
    /// A line feed.
    NewLine,
    /// An element name.
    Tag(String),
    /// `#name`.
    Id(String),
    /// `.name`.
    Class(String),
    /// One attribute of a parenthesised list: its name and its value.
    Attr(String, String),
    /// Literal text up to the end of the line.
    Text(String),
    /// `:`, which puts the next element inside the current one.
    Colon,
    /// A line that is indented deeper than the one before.
    Indent,
    /// One level of indentation that a line has left.
    Outdent,
    /// `/`.
    Slash,
}

impl View for TokenType {
    type V = SpecTokenType;

    open spec fn view(&self) -> SpecTokenType {
        match self {
            TokenType::Doctype(name) => SpecTokenType::Doctype(name@),
            TokenType::NewLine => SpecTokenType::NewLine,
            TokenType::Tag(name) => SpecTokenType::Tag(name@),
            TokenType::Id(name) => SpecTokenType::Id(name@),
            TokenType::Class(name) => SpecTokenType::Class(name@),
            TokenType::Attr(name, value) => SpecTokenType::Attr(name@, value@),
            TokenType::Text(body) => SpecTokenType::Text(body@),
            TokenType::Colon => SpecTokenType::Colon,
            TokenType::Indent => SpecTokenType::Indent,
            TokenType::Outdent => SpecTokenType::Outdent,
            TokenType::Slash => SpecTokenType::Slash,
        }
    }
}

impl TokenType {
    /// The kind in words, with what it carries in parentheses.
    pub fn to_string(&self) -> (text: String)
        ensures
            text@ == self@.text(),
    {
        match self {
            TokenType::Doctype(name) => carrying("Doctype(", name),
            TokenType::NewLine => String::from_str("NewLine"),
            TokenType::Tag(name) => carrying("Tag(", name),
            TokenType::Id(name) => carrying("Id(", name),
            TokenType::Class(name) => carrying("Class(", name),
            TokenType::Attr(name, value) => {
                let mut text = String::from_str("Attr(");
                text.append(name.as_str());
                text.append(", ");
                text.append(value.as_str());
                text.append(")");
                text
            },
            TokenType::Text(body) => carrying("Text(", body),
            TokenType::Colon => String::from_str("Colon"),
            TokenType::Indent => String::from_str("Indent"),
            TokenType::Outdent => String::from_str("Outdent"),
            TokenType::Slash => String::from_str("Slash"),
        }
    }
}

/// `word`, then `inner`, then a closing parenthesis.
fn carrying(word: &str, inner: &String) -> (text: String)
    ensures
        text@ == word@ + inner@ + ")"@,
{
    let mut text = String::from_str(word);
    text.append(inner.as_str());
    text.append(")");
    text
}

impl Clone for TokenType {
    fn clone(&self) -> (copy: TokenType)
        ensures
            copy@ == self@,
    {
        match self {
            TokenType::Doctype(name) => TokenType::Doctype(name.clone()),
            TokenType::NewLine => TokenType::NewLine,
            TokenType::Tag(name) => TokenType::Tag(name.clone()),
            TokenType::Id(name) => TokenType::Id(name.clone()),
            TokenType::Class(name) => TokenType::Class(name.clone()),
            TokenType::Attr(name, value) => TokenType::Attr(name.clone(), value.clone()),
            TokenType::Text(body) => TokenType::Text(body.clone()),
            TokenType::Colon => TokenType::Colon,
            TokenType::Indent => TokenType::Indent,
            TokenType::Outdent => TokenType::Outdent,
            TokenType::Slash => TokenType::Slash,
        }
    }
}

/// A token: its kind, and the byte range of the source text that it was
/// read from.
#[derive(PartialEq, Debug)]
pub struct Token {
    ty: TokenType,
    start: usize,
    end: usize,
}

impl View for Token {
    type V = SpecToken;

    closed spec fn view(&self) -> SpecToken {
        SpecToken { ty: self.ty@, start: self.start as nat, end: self.end as nat }
    }
}

impl Clone for Token {
    fn clone(&self) -> (copy: Token)
        ensures
            copy@ == self@,
    {
        Token { ty: self.ty.clone(), start: self.start, end: self.end }
    }
}

impl Token {
    /// A token of kind `ty` read from the bytes `start..end` of the source.
    pub fn new(ty: TokenType, start: usize, end: usize) -> (token: Token)
        ensures
            token@ == (SpecToken { ty: ty@, start: start as nat, end: end as nat }),
    {
        Token { ty, start, end }
    }

    /// The token as `<kind: start..end>`.
    pub fn to_string(&self) -> (text: String)
        ensures
            text@ == self@.text(),
    {
        let mut text = String::from_str("<");
        text.append(self.ty.to_string().as_str());
        text.append(": ");
        text.append(decimal_text(self.start).as_str());
        text.append("..");
        text.append(decimal_text(self.end).as_str());
        text.append(">");
        text
    }

    /// The kind of the token.
    pub fn get_type(&self) -> (ty: &TokenType)
        ensures
            ty@ == self@.ty,
    {
        &self.ty
    }

    /// The byte offset at which the token starts.
    pub fn start(&self) -> (start: usize)
        ensures
            start == self@.start,
    {
        self.start
    }

    /// The byte offset at which the token ends.
    pub fn end(&self) -> (end: usize)
        ensures
            end == self@.end,
    {
        self.end
    }
}

/// The tokens of a sequence as plain values, in order.
pub open spec fn tokens_model(tokens: Seq<Token>) -> Seq<SpecToken> {
    Seq::new(tokens.len(), |i: int| tokens[i]@)
}

/// Indentation levels as natural numbers.
pub open spec fn levels_model(levels: Seq<usize>) -> Seq<nat> {
    Seq::new(levels.len(), |k: int| levels[k] as nat)
}

/// Why and where the lexer stopped before the end of the text.
#[derive(Clone, Copy, PartialEq, Eq, Debug, Structural)]
pub struct LexError {
    pub kind: LexErrorKind,
    /// The byte offset at which the lexer stopped.
    pub offset: usize,
}

/// `error` says what `lexed` says of the lexer's stop: the same reason, at
/// the byte offset of the index at which `lexed` ends; or neither says that
/// the lexer stopped.
pub open spec fn stopped_as(error: Option<LexError>, lexed: Lexed, src: Seq<char>) -> bool {
    match (error, lexed.stop) {
        (Some(e), Some(kind)) => e.kind == kind && e.offset == offset(src, lexed.cursor),
        (None, None) => true,
        _ => false,
    }
}

/// A lexer over one source text. It holds the tokens that it has produced.
pub struct Lexer {
    src: String,
    /// The characters of `src`.
    chars: Vec<char>,
    tokens: Vec<Token>,
    /// The byte offset in `src` of the next character.
    pos: usize,
    /// The index in `chars` of the next character.
    index: usize,
    error: Option<LexError>,
}

impl Lexer {
    /// The characters of the source text.
    pub closed spec fn source(&self) -> Seq<char> {
        self.src@
    }

    /// The tokens produced so far.
    pub closed spec fn produced(&self) -> Seq<SpecToken> {
        tokens_model(self.tokens@)
    }

    /// The index of the next character to read.
    pub closed spec fn cursor(&self) -> int {
        self.index as int
    }

    /// Why the lexer stopped, if it did.
    pub closed spec fn failure(&self) -> Option<LexError> {
        self.error
    }

    /// The lexer's fields agree: the cursor lies in the text, and the byte
    /// offset is that of the cursor.
    pub closed spec fn wf(&self) -> bool {
        &&& self.chars@ == self.src@
        &&& self.index <= self.chars.len()
        &&& self.pos == offset(self.chars@, self.index as int)
        &&& utf8_len(self.chars@) <= usize::MAX
    }

    /// `self` is `before` with the cursor moved `n` characters further, and
    /// nothing else changed but the tokens.
    spec fn follows(&self, before: &Lexer, n: int) -> bool {
        &&& self.wf()
        &&& self.src == before.src
        &&& self.chars == before.chars
        &&& self.error == before.error
        &&& self.index == before.index + n
    }

    /// `self` is `before` after reading `scan`: the cursor has moved over its
    /// characters and its tokens have been added.
    spec fn scanned(&self, before: &Lexer, scan: Scan) -> bool {
        &&& self.follows(before, scan.len as int)
        &&& self.produced() == before.produced() + scan.tokens
    }

    /// A lexer at the start of `src`, with no token produced yet.
    pub fn new(src: String) -> (lexer: Lexer)
        ensures
            lexer.wf(),
            lexer.source() == src@,
            lexer.produced() == Seq::<SpecToken>::empty(),
            lexer.cursor() == 0,
            lexer.failure() is None,
    {
        let chars = chars_of(src.as_str());
        // The text is held in memory, so its length in bytes fits `usize`.
        let size = src.as_str().as_bytes().len();
        proof {
            assert(size == vstd::utf8::encode_utf8(src@).len());
            lemma_utf8_len_is_encoded_len(chars@);
            lemma_offset_end(chars@);
            assert(chars@.take(0) =~= Seq::<char>::empty());
            assert(tokens_model(Seq::<Token>::empty()) =~= Seq::<SpecToken>::empty());
        }
        Lexer { src, chars, tokens: Vec::new(), pos: 0, index: 0, error: None }
    }

    /// The next character, if the text has not ended.
    fn peek(&self) -> (next: Option<char>)
        requires
            self.wf(),
        ensures
            next == if self.cursor() < self.source().len() {
                Some(self.source()[self.cursor()])
            } else {
                None
            },
    {
        if self.index < self.chars.len() {
            Some(self.chars[self.index])
        } else {
            None
        }
    }

    /// Adds the token of kind `ty` that spans `length` bytes from `start`.
    fn add_token(&mut self, ty: TokenType, start: usize, length: usize)
        requires
            old(self).wf(),
            start + length <= usize::MAX,
        ensures
            final(self).follows(old(self), 0),
            final(self).produced() == old(self).produced().push(
                SpecToken { ty: ty@, start: start as nat, end: (start + length) as nat },
            ),
    {
        let token = Token::new(ty, start, start + length);
        self.tokens.push(token);
        assert(tokens_model(self.tokens@) =~= tokens_model(old(self).tokens@).push(token@));
    }

    /// Takes the next character.
    fn consume_next(&mut self) -> (c: char)
        requires
            old(self).wf(),
            old(self).cursor() < old(self).source().len(),
        ensures
            final(self).follows(old(self), 1),
            final(self).produced() == old(self).produced(),
            c == old(self).source()[old(self).cursor()],
    {
        let c = self.chars[self.index];
        proof {
            lemma_offset_step(self.chars@, self.index as int);
            lemma_offset_monotonic(self.chars@, self.index + 1, self.chars@.len() as int);
            lemma_offset_end(self.chars@);
        }
        self.pos += char_width(c);
        self.index += 1;
        c
    }

    /// Takes the longest run of characters of `class`, and gives it unless it
    /// is empty.
    fn consume_while(&mut self, class: CharClass) -> (run: Option<String>)
        requires
            old(self).wf(),
        ensures
            final(self).follows(
                old(self),
                run_len(old(self).source(), old(self).cursor(), class) as int,
            ),
            final(self).produced() == old(self).produced(),
            match run {
                Some(s) => s@.len() > 0 && s@ == old(self).source().subrange(
                    old(self).cursor(),
                    final(self).cursor(),
                ),
                None => final(self).cursor() == old(self).cursor(),
            },
    {
        let start = self.index;
        while self.index < self.chars.len() && class.accepts(self.chars[self.index])
            invariant
                self.follows(old(self), self.index - start),
                self.produced() == old(self).produced(),
                start == old(self).index,
                start <= self.index <= self.chars.len(),
                run_len(self.chars@, start as int, class) == (self.index - start) + run_len(
                    self.chars@,
                    self.index as int,
                    class,
                ),
            decreases self.chars.len() - self.index,
        {
            self.consume_next();
        }
        if self.index > start {
            Some(text_of(&self.chars, start, self.index))
        } else {
            None
        }
    }

    /// Takes the rest of the line with its line feed. An empty line is left
    /// where it is.
    fn consume_line(&mut self) -> (line: Option<String>)
        requires
            old(self).wf(),
        ensures
            final(self).produced() == old(self).produced(),
            ({
                let src = old(self).source();
                let i = old(self).cursor();
                let n = run_len(src, i, CharClass::Except('\n'));
                let fed: int = if n > 0 && i + n < src.len() {
                    1
                } else {
                    0
                };
                &&& final(self).follows(old(self), n + fed)
                &&& match line {
                    Some(s) => n > 0 && s@ == src.subrange(i, i + n + fed),
                    None => n == 0,
                }
            }),
    {
        let ghost i = self.index as int;
        let ghost n = run_len(self.chars@, i, CharClass::Except('\n'));
        proof {
            lemma_run_len(self.chars@, i, CharClass::Except('\n'));
        }
        match self.consume_while(CharClass::Except('\n')) {
            Some(mut s) => {
                if self.peek().is_some() {
                    let c = self.consume_next();
                    s.push(c);
                    assert(s@ =~= self.chars@.subrange(i, i + n + 1));
                }
                Some(s)
            },
            None => None,
        }
    }

    /// Takes the longest run of whitespace.
    fn consume_whitespaces(&mut self) -> (run: Option<String>)
        requires
            old(self).wf(),
        ensures
            final(self).follows(
                old(self),
                run_len(old(self).source(), old(self).cursor(), CharClass::Blank) as int,
            ),
            final(self).produced() == old(self).produced(),
            match run {
                Some(s) => s@.len() > 0 && s@ == old(self).source().subrange(
                    old(self).cursor(),
                    final(self).cursor(),
                ),
                None => final(self).cursor() == old(self).cursor(),
            },
    {
        self.consume_while(CharClass::Blank)
    }

    /// Takes the longest run of name characters.
    fn consume_name(&mut self) -> (run: Option<String>)
        requires
            old(self).wf(),
        ensures
            final(self).follows(
                old(self),
                run_len(old(self).source(), old(self).cursor(), CharClass::Name) as int,
            ),
            final(self).produced() == old(self).produced(),
            match run {
                Some(s) => s@.len() > 0 && s@ == old(self).source().subrange(
                    old(self).cursor(),
                    final(self).cursor(),
                ),
                None => final(self).cursor() == old(self).cursor(),
            },
    {
        self.consume_while(CharClass::Name)
    }

    /// Takes a quoted value with both quotes and gives what stands between
    /// them. Where no quote stands at the cursor, or the quote is not closed,
    /// nothing is taken.
    fn consume_quoted(&mut self) -> (body: Option<String>)
        requires
            old(self).wf(),
        ensures
            final(self).produced() == old(self).produced(),
            ({
                let src = old(self).source();
                let i = old(self).cursor();
                let quoted = i < src.len() && (src[i] == '"' || src[i] == '\'');
                let n = run_len(src, i + 1, CharClass::Except(src[i])) as int;
                match body {
                    Some(s) => quoted && i + 1 + n < src.len() && s@ == src.subrange(
                        i + 1,
                        i + 1 + n,
                    ) && final(self).follows(old(self), n + 2int),
                    None => !(quoted && i + 1 + n < src.len()) && final(self).follows(
                        old(self),
                        0,
                    ),
                }
            }),
    {
        let start_index = self.index;
        let start_pos = self.pos;
        let sign = match self.peek() {
            Some(c) => {
                if c == '"' || c == '\'' {
                    self.consume_next()
                } else {
                    return None;
                }
            },
            None => {
                return None;
            },
        };
        proof {
            lemma_run_len(self.chars@, start_index + 1, CharClass::Except(sign));
        }
        let body = match self.consume_while(CharClass::Except(sign)) {
            Some(s) => s,
            None => String::new(),
        };
        if self.peek().is_some() {
            self.consume_next();
            assert(body@ =~= self.chars@.subrange(start_index + 1, self.index - 1));
            Some(body)
        } else {
            self.index = start_index;
            self.pos = start_pos;
            None
        }
    }

    /// The number of bytes between the offset `start`, which is that of the
    /// character of index `from`, and the cursor.
    fn bytes_since(&self, start: usize, Ghost(from): Ghost<int>) -> (len: usize)
        requires
            self.wf(),
            0 <= from <= self.cursor(),
            start == offset(self.source(), from),
        ensures
            start + len == offset(self.source(), self.cursor()),
            start + len <= usize::MAX,
    {
        proof {
            lemma_offset_monotonic(self.chars@, from, self.index as int);
        }
        self.pos - start
    }

    /// Reads an element name.
    fn lex_tag(&mut self)
        requires
            old(self).wf(),
            old(self).cursor() < old(self).source().len(),
            is_letter(old(self).source()[old(self).cursor()]),
        ensures
            final(self).scanned(old(self), tag_at(old(self).source(), old(self).cursor())),
    {
        let start = self.pos;
        if let Some(name) = self.consume_name() {
            let len = self.bytes_since(start, Ghost(old(self).cursor()));
            self.add_token(TokenType::Tag(name), start, len);
        }
        proof {
            let scan = tag_at(old(self).source(), old(self).cursor());
            assert(self.produced() =~= old(self).produced() + scan.tokens);
        }
    }

    /// Reads `/`.
    fn lex_slash(&mut self)
        requires
            old(self).wf(),
            old(self).cursor() < old(self).source().len(),
        ensures
            final(self).scanned(old(self), slash_at(old(self).source(), old(self).cursor())),
    {
        let start = self.pos;
        self.consume_next();
        let len = self.bytes_since(start, Ghost(old(self).cursor()));
        self.add_token(TokenType::Slash, start, len);
        proof {
            let scan = slash_at(old(self).source(), old(self).cursor());
            assert(self.produced() =~= old(self).produced() + scan.tokens);
        }
    }

    /// Reads `:` and the spaces after it.
    fn lex_colon(&mut self)
        requires
            old(self).wf(),
            old(self).cursor() < old(self).source().len(),
        ensures
            final(self).scanned(old(self), colon_at(old(self).source(), old(self).cursor())),
    {
        let start = self.pos;
        self.consume_next();
        let len = self.bytes_since(start, Ghost(old(self).cursor()));
        self.add_token(TokenType::Colon, start, len);
        self.consume_while(CharClass::Only(' '));
        proof {
            let scan = colon_at(old(self).source(), old(self).cursor());
            assert(self.produced() =~= old(self).produced() + scan.tokens);
        }
    }

    /// Reads `#name` or `.name`.
    fn lex_selector(&mut self)
        requires
            old(self).wf(),
            old(self).cursor() < old(self).source().len(),
        ensures
            final(self).scanned(old(self), selector_at(old(self).source(), old(self).cursor())),
    {
        let start = self.pos;
        let first = self.consume_next();
        if let Some(name) = self.consume_name() {
            let len = self.bytes_since(start, Ghost(old(self).cursor()));
            if first == '#' {
                self.add_token(TokenType::Id(name), start, len);
            } else {
                self.add_token(TokenType::Class(name), start, len);
            }
        }
        proof {
            let scan = selector_at(old(self).source(), old(self).cursor());
            assert(self.produced() =~= old(self).produced() + scan.tokens);
        }
    }

    /// Reads a line of text.
    fn lex_text(&mut self)
        requires
            old(self).wf(),
            old(self).cursor() < old(self).source().len(),
        ensures
            final(self).scanned(old(self), text_at(old(self).source(), old(self).cursor())),
    {
        let start = self.pos;
        let first = self.consume_next();
        if first == '|' {
            if let Some(second) = self.peek() {
                if second == ' ' {
                    self.consume_next();
                }
            }
        }
        if let Some(body) = self.consume_while(CharClass::Except('\n')) {
            let len = self.bytes_since(start, Ghost(old(self).cursor()));
            self.add_token(TokenType::Text(body), start, len);
        }
        proof {
            let scan = text_at(old(self).source(), old(self).cursor());
            assert(self.produced() =~= old(self).produced() + scan.tokens);
        }
    }

    /// Reads a line feed and the indentation of the next line, and brings
    /// `indents` to the levels that are open there.
    fn lex_newline(&mut self, indents: &mut Vec<usize>)
        requires
            old(self).wf(),
            old(self).cursor() < old(self).source().len(),
            old(indents).len() > 0,
            old(indents)[0] == 0,
        ensures
            final(self).scanned(
                old(self),
                newline_at(old(self).source(), old(self).cursor(), levels_model(old(indents)@)),
            ),
            levels_model(final(indents)@) == levels_after(
                old(self).source(),
                old(self).cursor(),
                levels_model(old(indents)@),
            ),
            final(indents).len() > 0,
            final(indents)[0] == 0,
    {
        let ghost src = self.chars@;
        let ghost i = self.index as int;
        let ghost before = levels_model(indents@);
        let ghost scan = newline_at(src, i, before);
        let start = self.pos;
        self.consume_next();
        let len = self.bytes_since(start, Ghost(i));
        self.add_token(TokenType::NewLine, start, len);
        let from = self.pos;
        let from_index = self.index;
        self.consume_while(CharClass::Only(' '));
        let level = self.index - from_index;
        let width = self.bytes_since(from, Ghost(i + 1));
        let prev = indents[indents.len() - 1];
        assert(prev as nat == top_level(before));
        let ghost base = self.produced();
        assert(base =~= old(self).produced() + seq![scan.tokens[0]]);
        if level > prev {
            self.add_token(TokenType::Indent, from, width);
            indents.push(level);
            proof {
                assert(self.produced() =~= old(self).produced() + scan.tokens);
                assert(levels_model(indents@) =~= before.push(level as nat));
            }
        } else {
            let ghost outdent = SpecToken {
                ty: SpecTokenType::Outdent,
                start: from as nat,
                end: (from + width) as nat,
            };
            let ghost total = levels_left(before, level as nat);
            let ghost mut count: nat = 0;
            while level < indents[indents.len() - 1]
                invariant
                    self.follows(old(self), scan.len as int),
                    self.produced() == base + Seq::new(count, |k: int| outdent),
                    0 < indents.len() <= old(indents).len(),
                    indents[0] == 0,
                    indents@ == old(indents)@.take(indents.len() as int),
                    before == levels_model(old(indents)@),
                    count == old(indents).len() - indents.len(),
                    total == levels_left(before, level as nat),
                    total == count + levels_left(levels_model(indents@), level as nat),
                    from + width <= usize::MAX,
                    outdent == (SpecToken {
                        ty: SpecTokenType::Outdent,
                        start: from as nat,
                        end: (from + width) as nat,
                    }),
                decreases indents.len(),
            {
                proof {
                    assert(levels_model(indents@).drop_last() =~= levels_model(
                        indents@.drop_last(),
                    ));
                }
                indents.pop();
                self.add_token(TokenType::Outdent, from, width);
                proof {
                    assert(self.produced() =~= base + Seq::new(
                        (count + 1) as nat,
                        |k: int| outdent,
                    ));
                    count = count + 1;
                }
            }
            proof {
                assert(self.produced() =~= old(self).produced() + scan.tokens);
                assert(levels_model(indents@) =~= before.take(before.len() - total));
            }
        }
    }

    /// Reads what follows an attribute's name: nothing, whitespace, or `=`
    /// and a value. `None` means a quote that is not closed.
    fn lex_value(&mut self) -> (value: Option<String>)
        requires
            old(self).wf(),
        ensures
            final(self).produced() == old(self).produced(),
            ({
                let v = value_at(old(self).source(), old(self).cursor());
                &&& final(self).follows(old(self), v.len as int)
                &&& match value {
                    Some(s) => !v.unclosed && s@ == v.value,
                    None => v.unclosed,
                }
            }),
    {
        let ghost src = self.chars@;
        let ghost p = self.index as int;
        match self.peek() {
            Some(c) => {
                if blank(c) {
                    self.consume_whitespaces();
                    Some(String::new())
                } else if c == '=' {
                    self.consume_next();
                    match self.peek() {
                        Some(d) => {
                            if blank(d) {
                                self.consume_whitespaces();
                                Some(String::new())
                            } else if d == '"' || d == '\'' {
                                self.consume_quoted()
                            } else {
                                match self.consume_while(CharClass::Value) {
                                    Some(s) => Some(s),
                                    None => Some(String::new()),
                                }
                            }
                        },
                        None => {
                            assert(src.subrange(p + 1, p + 1) =~= Seq::<char>::empty());
                            Some(String::new())
                        },
                    }
                } else {
                    Some(String::new())
                }
            },
            None => Some(String::new()),
        }
    }

    /// Reads one attribute. `false` means a quote that is not closed: no
    /// token is added then.
    fn lex_attr(&mut self) -> (closed: bool)
        requires
            old(self).wf(),
            old(self).cursor() < old(self).source().len(),
            is_letter(old(self).source()[old(self).cursor()]),
        ensures
            ({
                let src = old(self).source();
                let j = old(self).cursor();
                let n = 1 + run_len(src, j + 1, CharClass::Name);
                let v = value_at(src, j + n);
                let ty = SpecTokenType::Attr(src.subrange(j, j + n), v.value);
                &&& closed == !v.unclosed
                &&& final(self).follows(old(self), (n + v.len) as int)
                &&& final(self).produced() == if closed {
                    old(self).produced().push(spanning(src, ty, j, j + n + v.len))
                } else {
                    old(self).produced()
                }
            }),
    {
        let start = self.pos;
        let name = match self.consume_name() {
            Some(name) => name,
            None => String::new(),
        };
        match self.lex_value() {
            Some(value) => {
                let len = self.bytes_since(start, Ghost(old(self).cursor()));
                self.add_token(TokenType::Attr(name, value), start, len);
                true
            },
            None => false,
        }
    }

    /// Reads a parenthesised attribute list. Gives the reason where the list
    /// stops the lexer.
    fn lex_attrs(&mut self) -> (stop: Option<LexErrorKind>)
        requires
            old(self).wf(),
            old(self).cursor() < old(self).source().len(),
        ensures
            final(self).scanned(old(self), attrs_at(old(self).source(), old(self).cursor())),
            stop == attrs_at(old(self).source(), old(self).cursor()).stop,
    {
        let ghost src = self.chars@;
        let ghost i = self.index as int;
        let ghost list = attrs_from(src, i + 1);
        let ghost mut added = Seq::<SpecToken>::empty();
        self.consume_next();
        let mut stop: Option<LexErrorKind> = None;
        let mut open = true;
        assert(self.produced() =~= old(self).produced() + added);
        while open
            invariant
                self.wf(),
                self.source() == src,
                self.follows(old(self), self.cursor() - i),
                i < self.cursor() <= src.len(),
                list == attrs_from(src, i + 1),
                self.produced() == old(self).produced() + added,
                open ==> stop is None,
                open ==> list.tokens == added + attrs_from(src, self.cursor()).tokens,
                open ==> list.len == (self.cursor() - i - 1) + attrs_from(src, self.cursor()).len,
                open ==> list.stop == attrs_from(src, self.cursor()).stop,
                !open ==> list.tokens == added,
                !open ==> list.len == self.cursor() - i - 1,
                !open ==> list.stop == stop,
            decreases src.len() - self.cursor() + (if open { 1int } else { 0int }),
        {
            let ghost j = self.index as int;
            match self.peek() {
                None => {
                    stop = Some(LexErrorKind::UnclosedAttributes);
                    open = false;
                    assert(added + Seq::<SpecToken>::empty() =~= added);
                },
                Some(c) => {
                    if c == ')' {
                        self.consume_next();
                        open = false;
                        assert(added + Seq::<SpecToken>::empty() =~= added);
                    } else if blank(c) {
                        self.consume_whitespaces();
                    } else if letter(c) {
                        let ghost n = 1 + run_len(src, j + 1, CharClass::Name);
                        let ghost v = value_at(src, j + n);
                        proof {
                            lemma_run_len(src, j + 1, CharClass::Name);
                        }
                        let closed = self.lex_attr();
                        if closed {
                            proof {
                                let ty = SpecTokenType::Attr(src.subrange(j, j + n), v.value);
                                let token = spanning(src, ty, j, j + n + v.len);
                                let rest = attrs_from(src, j + n + v.len);
                                assert(added + (seq![token] + rest.tokens) =~= added.push(token)
                                    + rest.tokens);
                                assert(self.produced() =~= old(self).produced() + added.push(
                                    token,
                                ));
                                added = added.push(token);
                            }
                        } else {
                            stop = Some(LexErrorKind::UnclosedQuote);
                            open = false;
                            assert(added + Seq::<SpecToken>::empty() =~= added);
                        }
                    } else {
                        open = false;
                        assert(added + Seq::<SpecToken>::empty() =~= added);
                    }
                },
            }
        }
        stop
    }

    /// Whether the text starts with a doctype line.
    fn starts_with_doctype(&self) -> (found: bool)
        requires
            self.wf(),
        ensures
            found == has_doctype(self.source()),
    {
        let chars = &self.chars;
        let found = chars.len() > 8 && chars[0] == 'd' && chars[1] == 'o' && chars[2] == 'c'
            && chars[3] == 't' && chars[4] == 'y' && chars[5] == 'p' && chars[6] == 'e'
            && chars[7] == ' ' && chars[8] != '\n';
        proof {
            let src = self.chars@;
            let line = CharClass::Except('\n');
            lemma_run_len(src, 0, line);
            if found {
                assert(src.subrange(0, 8) =~= doctype_word());
                if first_line_len(src) <= 8 {
                    assert(!line.holds(src[first_line_len(src) as int]));
                }
            } else if has_doctype(src) {
                assert(line.holds(src[8]));
                assert(forall|k: int| 0 <= k < 8 ==> src[k] == src.subrange(0, 8)[k]);
                assert(src[0] == doctype_word()[0]);
                assert(src[1] == doctype_word()[1]);
                assert(src[2] == doctype_word()[2]);
                assert(src[3] == doctype_word()[3]);
                assert(src[4] == doctype_word()[4]);
                assert(src[5] == doctype_word()[5]);
                assert(src[6] == doctype_word()[6]);
                assert(src[7] == doctype_word()[7]);
            }
        }
        found
    }

    /// Reads the whole text from its start: the lexer then holds the tokens
    /// of its source, and says where and why it stopped if it did.
    pub fn tokenize(&mut self)
        requires
            old(self).wf(),
        ensures
            final(self).wf(),
            final(self).source() == old(self).source(),
            final(self).produced() == lex(old(self).source()).tokens,
            final(self).cursor() == lex(old(self).source()).cursor,
            stopped_as(final(self).failure(), lex(old(self).source()), old(self).source()),
    {
        let ghost src = self.chars@;
        self.tokens = Vec::new();
        self.pos = 0;
        self.index = 0;
        self.error = None;
        let mut indents: Vec<usize> = Vec::new();
        indents.push(0);
        proof {
            lemma_offset_end(src);
            assert(self.produced() =~= Seq::<SpecToken>::empty());
            assert(levels_model(indents@) =~= seq![0nat]);
        }
        if self.starts_with_doctype() {
            let ghost n = first_line_len(src);
            proof {
                lemma_run_len(src, 0, CharClass::Except('\n'));
            }
            self.consume_line();
            let fed: usize = if self.chars[self.index - 1] == '\n' {
                1
            } else {
                0
            };
            assert(fed == 1 <==> n < src.len());
            let end = self.index - fed;
            proof {
                if fed == 1 {
                    lemma_offset_step(src, n as int);
                }
            }
            let len = self.pos - fed;
            let name = text_of(&self.chars, 8, end);
            self.add_token(TokenType::Doctype(name), 0, len);
            assert(self.produced() =~= seq![
                spanning(src, SpecTokenType::Doctype(src.subrange(8, n as int)), 0, n as int),
            ]);
        }
        let mut running = true;
        while running
            invariant
                self.wf(),
                self.source() == src,
                indents.len() > 0,
                indents[0] == 0,
                running ==> self.failure() is None,
                running ==> lex(src).tokens == self.produced() + lex_from(
                    src,
                    self.cursor(),
                    levels_model(indents@),
                ).tokens,
                running ==> lex(src).cursor == lex_from(
                    src,
                    self.cursor(),
                    levels_model(indents@),
                ).cursor,
                running ==> lex(src).stop == lex_from(
                    src,
                    self.cursor(),
                    levels_model(indents@),
                ).stop,
                !running ==> lex(src).tokens == self.produced(),
                !running ==> lex(src).cursor == self.cursor(),
                !running ==> stopped_as(self.failure(), lex(src), src),
            decreases src.len() - self.cursor() + (if running { 1int } else { 0int }),
        {
            let ghost i = self.index as int;
            let ghost levels = levels_model(indents@);
            let ghost shown = self.produced();
            let ghost scan = scan_at(src, i, levels);
            let ghost rest = lex_from(src, i + scan.len, levels_at(src, i, levels));
            proof {
                assert(shown + (scan.tokens + rest.tokens) =~= (shown + scan.tokens)
                    + rest.tokens);
                assert(shown + Seq::<SpecToken>::empty() =~= shown);
            }
            match self.peek() {
                None => {
                    running = false;
                },
                Some(ch) => {
                    if letter(ch) {
                        self.lex_tag();
                    } else if ch == '\n' {
                        self.lex_newline(&mut indents);
                    } else if ch == ' ' || ch == '|' {
                        self.lex_text();
                    } else if ch == '#' || ch == '.' {
                        self.lex_selector();
                    } else if ch == '(' {
                        let stop = self.lex_attrs();
                        if let Some(kind) = stop {
                            self.error = Some(LexError { kind, offset: self.pos });
                            running = false;
                        }
                    } else if ch == '/' {
                        self.lex_slash();
                    } else if ch == ':' {
                        self.lex_colon();
                    } else {
                        self.error = Some(
                            LexError { kind: LexErrorKind::UnexpectedChar, offset: self.pos },
                        );
                        running = false;
                    }
                },
            }
        }
    }

    /// Why and where the lexer stopped, if it did.
    pub fn error(&self) -> (error: Option<LexError>)
        ensures
            error == self.failure(),
    {
        self.error
    }

    /// A copy of the tokens produced so far.
    pub fn get_tokens(&self) -> (tokens: Vec<Token>)
        ensures
            tokens_model(tokens@) == self.produced(),
    {
        let mut tokens: Vec<Token> = Vec::new();
        let mut k: usize = 0;
        while k < self.tokens.len()
            invariant
                k <= self.tokens.len(),
                tokens.len() == k,
                forall|j: int| 0 <= j < k ==> tokens@[j]@ == self.tokens@[j]@,
            decreases self.tokens.len() - k,
        {
            let copy = self.tokens[k].clone();
            tokens.push(copy);
            k += 1;
        }
        assert(tokens_model(tokens@) =~= tokens_model(self.tokens@));
        tokens
    }

    /// The part of the source text that `token` spans, in printable form: a
    /// tab is shown as `<Tab>`, a line feed as `<LF>`.
    pub fn token_source(&self, token: &Token) -> (text: String)
        requires
            self.wf(),
            token@.start <= token@.end,
            is_boundary(self.source(), token@.start),
            is_boundary(self.source(), token@.end),
        ensures
            text@ == printable(
                self.source().subrange(
                    index_at(self.source(), token@.start),
                    index_at(self.source(), token@.end),
                ),
            ),
    {
        let ghost src = self.chars@;
        let ghost first = index_at(src, token@.start);
        let ghost last = index_at(src, token@.end);
        let mut i: usize = 0;
        let mut at: usize = 0;
        proof {
            lemma_offset_end(src);
            if last < first {
                lemma_offset_monotonic(src, last, first);
            }
        }
        while i < self.chars.len() && at < token.start
            invariant
                self.wf(),
                src == self.chars@,
                0 <= i <= first <= src.len(),
                at == offset(src, i as int),
                offset(src, first) == token@.start,
            decreases src.len() - i,
        {
            proof {
                lemma_offset_end(src);
                lemma_offset_step(src, i as int);
                lemma_offset_monotonic(src, i + 1, src.len() as int);
                if first < i + 1 {
                    lemma_offset_monotonic(src, first, i as int);
                }
            }
            at += char_width(self.chars[i]);
            i += 1;
        }
        proof {
            lemma_offset_monotonic(src, i as int, first);
        }
        let mut text = String::new();
        assert(src.subrange(first, first) =~= Seq::<char>::empty());
        while i < self.chars.len() && at < token.end
            invariant
                self.wf(),
                src == self.chars@,
                0 <= first <= i <= last <= src.len(),
                at == offset(src, i as int),
                offset(src, last) == token@.end,
                text@ == printable(src.subrange(first, i as int)),
            decreases src.len() - i,
        {
            proof {
                lemma_offset_end(src);
                lemma_offset_step(src, i as int);
                lemma_offset_monotonic(src, i + 1, src.len() as int);
                if last < i + 1 {
                    lemma_offset_monotonic(src, last, i as int);
                }
                assert(src.subrange(first, i + 1).drop_last() =~= src.subrange(first, i as int));
            }
            let c = self.chars[i];
            if c == '\t' {
                text.append("<Tab>");
            } else if c == '\n' {
                text.append("<LF>");
            } else {
                text.push(c);
            }
            at += char_width(c);
            i += 1;
        }
        proof {
            lemma_offset_monotonic(src, i as int, last);
        }
        text
    }
}

} // verus!
