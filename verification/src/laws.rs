//! What holds of the lexer, the parser and the renderer on every input.
use crate::html::{document_text, element_text, is_void};
use crate::lex::{SpecToken, SpecTokenType};
use crate::lexical::{
    attrs_from, first_line_len, has_doctype, left, levels_after, levels_at, levels_left, lex,
    lex_from, scan_at, spanning, top_level, value_at,
};
use crate::parse::{nodes_model, Node};
use crate::syntax::{
    bare, block_at, element_from, node_at, node_behind, remaining, with_attr, with_children,
    SpecElement, SpecNode,
};
use crate::text::{
    is_blank, is_boundary, is_letter, lemma_index_at, lemma_offset_monotonic, lemma_run_len,
    run_len, CharClass,
};
use vstd::prelude::*;

verus! {

/// The number of `Indent` tokens among `tokens`.
pub open spec fn indents(tokens: Seq<SpecToken>) -> nat
    decreases tokens.len(),
{
    if tokens.len() == 0 {
        0
    } else if tokens.last().ty is Indent {
        indents(tokens.drop_last()) + 1
    } else {
        indents(tokens.drop_last())
    }
}

/// The number of `Outdent` tokens among `tokens`.
pub open spec fn outdents(tokens: Seq<SpecToken>) -> nat
    decreases tokens.len(),
{
    if tokens.len() == 0 {
        0
    } else if tokens.last().ty is Outdent {
        outdents(tokens.drop_last()) + 1
    } else {
        outdents(tokens.drop_last())
    }
}

/// Indentation levels as the lexer keeps them: the first is 0, and each is
/// greater than the one before.
pub open spec fn ordered(levels: Seq<nat>) -> bool {
    &&& levels.len() > 0
    &&& levels[0] == 0
    &&& forall|a: int, b: int| 0 <= a < b < levels.len() ==> levels[a] < levels[b]
}

/// The counts of a concatenation are the sums of the counts of its parts.
proof fn lemma_counts_concat(a: Seq<SpecToken>, b: Seq<SpecToken>)
    ensures
        indents(a + b) == indents(a) + indents(b),
        outdents(a + b) == outdents(a) + outdents(b),
    decreases b.len(),
{
    if b.len() == 0 {
        assert(a + b =~= a);
    } else {
        lemma_counts_concat(a, b.drop_last());
        assert((a + b).drop_last() =~= a + b.drop_last());
    }
}

/// One token counts as what it is.
proof fn lemma_counts_single(t: SpecToken)
    ensures
        indents(seq![t]) == if t.ty is Indent { 1nat } else { 0nat },
        outdents(seq![t]) == if t.ty is Outdent { 1nat } else { 0nat },
{
    assert(seq![t].drop_last() =~= Seq::<SpecToken>::empty());
    assert(indents(seq![t].drop_last()) == 0);
    assert(outdents(seq![t].drop_last()) == 0);
    assert(seq![t].last() == t);
}

/// A token that stands `n` times counts `n` times.
proof fn lemma_counts_repeated(n: nat, t: SpecToken)
    ensures
        indents(Seq::new(n, |k: int| t)) == if t.ty is Indent { n } else { 0nat },
        outdents(Seq::new(n, |k: int| t)) == if t.ty is Outdent { n } else { 0nat },
    decreases n,
{
    if n > 0 {
        lemma_counts_repeated((n - 1) as nat, t);
        assert(Seq::new(n, |k: int| t).drop_last() =~= Seq::new((n - 1) as nat, |k: int| t));
    }
}

/// An attribute list holds neither `Indent` nor `Outdent`.
proof fn lemma_attrs_counts(src: Seq<char>, j: int)
    ensures
        indents(attrs_from(src, j).tokens) == 0,
        outdents(attrs_from(src, j).tokens) == 0,
    decreases left(src, j),
{
    if 0 <= j < src.len() && src[j] != ')' {
        if is_blank(src[j]) {
            let w = 1 + run_len(src, j + 1, CharClass::Blank);
            lemma_attrs_counts(src, j + w);
        } else if is_letter(src[j]) {
            let n = 1 + run_len(src, j + 1, CharClass::Name);
            let v = value_at(src, j + n);
            if !v.unclosed {
                let rest = attrs_from(src, j + n + v.len);
                let first = attrs_from(src, j).tokens[0];
                lemma_attrs_counts(src, j + n + v.len);
                lemma_counts_single(first);
                lemma_counts_concat(seq![first], rest.tokens);
            }
        }
    }
}

/// A line leaves fewer levels than are open: level 0 is never left.
proof fn lemma_levels_left(levels: Seq<nat>, level: nat)
    requires
        ordered(levels),
    ensures
        levels_left(levels, level) < levels.len(),
        top_level(levels.take(levels.len() - levels_left(levels, level))) <= level,
    decreases levels.len(),
{
    if levels.last() > level {
        assert(levels.len() > 1);
        let shorter = levels.drop_last();
        lemma_levels_left(shorter, level);
        assert(shorter.take(shorter.len() - levels_left(shorter, level)) =~= levels.take(
            levels.len() - levels_left(levels, level),
        ));
    } else {
        assert(levels.take(levels.len() as int) =~= levels);
    }
}

/// The levels stay ordered over a line feed.
proof fn lemma_levels_after(src: Seq<char>, i: int, levels: Seq<nat>)
    requires
        ordered(levels),
    ensures
        ordered(levels_after(src, i, levels)),
{
    let level = run_len(src, i + 1, CharClass::Only(' '));
    lemma_levels_left(levels, level);
}

/// What is read in one place changes the count of `Indent` over `Outdent` as
/// it changes the number of open levels.
proof fn lemma_scan_balance(src: Seq<char>, i: int, levels: Seq<nat>)
    requires
        0 <= i < src.len(),
        ordered(levels),
    ensures
        ordered(levels_at(src, i, levels)),
        indents(scan_at(src, i, levels).tokens) + levels.len() == outdents(
            scan_at(src, i, levels).tokens,
        ) + levels_at(src, i, levels).len(),
        outdents(scan_at(src, i, levels).tokens) < levels.len(),
{
    let scan = scan_at(src, i, levels);
    let c = src[i];
    if is_letter(c) {
        lemma_counts_single(scan.tokens[0]);
        assert(scan.tokens =~= seq![scan.tokens[0]]);
    } else if c == '\n' {
        let level = run_len(src, i + 1, CharClass::Only(' '));
        lemma_levels_after(src, i, levels);
        lemma_levels_left(levels, level);
        let newline = scan.tokens[0];
        lemma_counts_single(newline);
        if level > top_level(levels) {
            let indent = scan.tokens[1];
            lemma_counts_single(indent);
            lemma_counts_concat(seq![newline], seq![indent]);
            assert(scan.tokens =~= seq![newline] + seq![indent]);
        } else {
            let outdent = spanning(
                src,
                SpecTokenType::Outdent,
                i + 1,
                i + 1 + level,
            );
            let gone = Seq::new(levels_left(levels, level), |k: int| outdent);
            lemma_counts_repeated(levels_left(levels, level), outdent);
            lemma_counts_concat(seq![newline], gone);
        }
    } else if c == ' ' || c == '|' || c == '#' || c == '.' {
        if scan.tokens.len() > 0 {
            lemma_counts_single(scan.tokens[0]);
            assert(scan.tokens =~= seq![scan.tokens[0]]);
        }
    } else if c == '(' {
        lemma_attrs_counts(src, i + 1);
    } else if c == '/' || c == ':' {
        lemma_counts_single(scan.tokens[0]);
        assert(scan.tokens =~= seq![scan.tokens[0]]);
    }
}

/// From any place on, the tokens hold as many more `Indent` than `Outdent`
/// as more levels are open at the end than at that place.
proof fn lemma_lex_from_balance(src: Seq<char>, i: int, levels: Seq<nat>)
    requires
        ordered(levels),
    ensures
        ordered(lex_from(src, i, levels).levels),
        indents(lex_from(src, i, levels).tokens) + levels.len() == outdents(
            lex_from(src, i, levels).tokens,
        ) + lex_from(src, i, levels).levels.len(),
    decreases left(src, i),
{
    if 0 <= i < src.len() {
        let scan = scan_at(src, i, levels);
        lemma_scan_balance(src, i, levels);
        if scan.stop is None {
            let rest = lex_from(src, i + scan.len, levels_at(src, i, levels));
            lemma_lex_from_balance(src, i + scan.len, levels_at(src, i, levels));
            lemma_counts_concat(scan.tokens, rest.tokens);
        } else {
            lemma_stopped_scan(src, i, levels);
        }
    }
}

/// A place at which the lexer stops holds neither `Indent` nor `Outdent`.
proof fn lemma_stopped_scan(src: Seq<char>, i: int, levels: Seq<nat>)
    requires
        0 <= i < src.len(),
        scan_at(src, i, levels).stop is Some,
    ensures
        indents(scan_at(src, i, levels).tokens) == 0,
        outdents(scan_at(src, i, levels).tokens) == 0,
{
    if src[i] == '(' {
        lemma_attrs_counts(src, i + 1);
    }
}

/// The tokens of a text hold as many more `Indent` than `Outdent` as levels
/// of indentation are open at its end, level 0 not counted; and those levels
/// are ordered.
pub proof fn lemma_indentation_balance(src: Seq<char>)
    ensures
        ordered(lex(src).levels),
        indents(lex(src).tokens) + 1 == outdents(lex(src).tokens) + lex(src).levels.len(),
{
    let start = seq![0nat];
    if has_doctype(src) {
        let n = first_line_len(src);
        let next: int = if n < src.len() {
            n as int + 1
        } else {
            n as int
        };
        let doctype = lex(src).tokens[0];
        lemma_lex_from_balance(src, next, start);
        lemma_counts_single(doctype);
        lemma_counts_concat(seq![doctype], lex_from(src, next, start).tokens);
    } else {
        lemma_lex_from_balance(src, 0, start);
    }
}

/// In a text that ends with no indentation open, the tokens hold as many
/// `Indent` as `Outdent`.
pub proof fn lemma_indents_match_outdents(src: Seq<char>)
    requires
        lex(src).levels.len() == 1,
    ensures
        indents(lex(src).tokens) == outdents(lex(src).tokens),
{
    lemma_indentation_balance(src);
}

/// Replaying `tokens` against a stack of levels never finds it empty: no
/// prefix holds more `Outdent` than `Indent` and `spare` together.
pub open spec fn stays_above(tokens: Seq<SpecToken>, spare: nat) -> bool {
    forall|k: int|
        0 <= k <= tokens.len() ==> outdents(#[trigger] tokens.take(k)) <= indents(tokens.take(k))
            + spare
}

/// A prefix holds no more of either kind than the whole.
proof fn lemma_counts_prefix(tokens: Seq<SpecToken>, k: int)
    requires
        0 <= k <= tokens.len(),
    ensures
        indents(tokens.take(k)) <= indents(tokens),
        outdents(tokens.take(k)) <= outdents(tokens),
{
    lemma_counts_concat(tokens.take(k), tokens.skip(k));
    assert(tokens.take(k) + tokens.skip(k) =~= tokens);
}

/// Tokens that stay above `spare`, followed by tokens that stay above what
/// the first leave open, stay above `spare`.
proof fn lemma_stays_above_concat(a: Seq<SpecToken>, b: Seq<SpecToken>, spare: nat, then: nat)
    requires
        stays_above(a, spare),
        stays_above(b, then),
        indents(a) + spare == outdents(a) + then,
    ensures
        stays_above(a + b, spare),
{
    assert forall|k: int| 0 <= k <= (a + b).len() implies outdents(#[trigger] (a + b).take(k))
        <= indents((a + b).take(k)) + spare by {
        if k <= a.len() {
            assert((a + b).take(k) =~= a.take(k));
        } else {
            assert((a + b).take(k) =~= a + b.take(k - a.len()));
            lemma_counts_concat(a, b.take(k - a.len()));
        }
    }
}

/// Tokens with no more `Outdent` than `spare` stay above `spare`.
proof fn lemma_stays_above_few(tokens: Seq<SpecToken>, spare: nat)
    requires
        outdents(tokens) <= spare,
    ensures
        stays_above(tokens, spare),
{
    assert forall|k: int| 0 <= k <= tokens.len() implies outdents(#[trigger] tokens.take(k))
        <= indents(tokens.take(k)) + spare by {
        lemma_counts_prefix(tokens, k);
    }
}

/// From any place on, no prefix of the tokens leaves more levels than are
/// open at that place and opened since, level 0 not counted.
proof fn lemma_lex_from_stays_above(src: Seq<char>, i: int, levels: Seq<nat>)
    requires
        ordered(levels),
    ensures
        stays_above(lex_from(src, i, levels).tokens, (levels.len() - 1) as nat),
    decreases left(src, i),
{
    let spare = (levels.len() - 1) as nat;
    if 0 <= i < src.len() {
        let scan = scan_at(src, i, levels);
        lemma_scan_balance(src, i, levels);
        lemma_stays_above_few(scan.tokens, spare);
        if scan.stop is None {
            let after = levels_at(src, i, levels);
            let rest = lex_from(src, i + scan.len, after);
            lemma_lex_from_stays_above(src, i + scan.len, after);
            lemma_stays_above_concat(scan.tokens, rest.tokens, spare, (after.len() - 1) as nat);
        }
    } else {
        lemma_stays_above_few(Seq::<SpecToken>::empty(), spare);
    }
}

/// In no prefix of the tokens of a text are there more `Outdent` than
/// `Indent`: a level is left only after it was opened.
pub proof fn lemma_levels_never_underflow(src: Seq<char>)
    ensures
        stays_above(lex(src).tokens, 0),
{
    let start = seq![0nat];
    if has_doctype(src) {
        let n = first_line_len(src);
        let next: int = if n < src.len() {
            n as int + 1
        } else {
            n as int
        };
        let doctype = lex(src).tokens[0];
        lemma_lex_from_stays_above(src, next, start);
        lemma_counts_single(doctype);
        lemma_stays_above_few(seq![doctype], 0);
        lemma_stays_above_concat(seq![doctype], lex_from(src, next, start).tokens, 0, 0);
    } else {
        lemma_lex_from_stays_above(src, 0, start);
    }
}

/// The span of `t` is a part of the text `src`: it starts and ends where a
/// character starts or the text ends, and it does not end before it starts.
pub open spec fn spans_text(src: Seq<char>, t: SpecToken) -> bool {
    &&& t.start <= t.end
    &&& is_boundary(src, t.start)
    &&& is_boundary(src, t.end)
}

/// Every token of `tokens` spans a part of `src`.
pub open spec fn all_span_text(src: Seq<char>, tokens: Seq<SpecToken>) -> bool {
    forall|k: int| 0 <= k < tokens.len() ==> spans_text(src, #[trigger] tokens[k])
}

/// A token read from characters of the text spans a part of the text.
proof fn lemma_spanning(src: Seq<char>, ty: SpecTokenType, from: int, to: int)
    requires
        0 <= from <= to <= src.len(),
    ensures
        spans_text(src, spanning(src, ty, from, to)),
{
    lemma_index_at(src, from);
    lemma_index_at(src, to);
    lemma_offset_monotonic(src, from, to);
}

/// An attribute's value ends within the text.
proof fn lemma_value_ends(src: Seq<char>, p: int)
    requires
        0 <= p <= src.len(),
    ensures
        p + value_at(src, p).len <= src.len(),
{
    lemma_run_len(src, p, CharClass::Blank);
    if p < src.len() && src[p] == '=' {
        lemma_run_len(src, p + 1, CharClass::Blank);
        lemma_run_len(src, p + 1, CharClass::Value);
    }
}

/// The tokens of an attribute list span parts of the text, and the list ends
/// within the text.
proof fn lemma_attrs_span(src: Seq<char>, j: int)
    requires
        0 <= j <= src.len(),
    ensures
        all_span_text(src, attrs_from(src, j).tokens),
        j + attrs_from(src, j).len <= src.len(),
    decreases left(src, j),
{
    if j < src.len() && src[j] != ')' {
        if is_blank(src[j]) {
            let w = 1 + run_len(src, j + 1, CharClass::Blank);
            lemma_run_len(src, j + 1, CharClass::Blank);
            lemma_attrs_span(src, j + w);
        } else if is_letter(src[j]) {
            let n = 1 + run_len(src, j + 1, CharClass::Name);
            lemma_run_len(src, j + 1, CharClass::Name);
            let v = value_at(src, j + n);
            lemma_value_ends(src, j + n);
            if !v.unclosed {
                let ty = SpecTokenType::Attr(src.subrange(j, j + n), v.value);
                lemma_spanning(src, ty, j, j + n + v.len);
                lemma_attrs_span(src, j + n + v.len);
            }
        }
    }
}

/// The tokens read in one place span parts of the text, and the place ends
/// within the text.
proof fn lemma_scan_spans(src: Seq<char>, i: int, levels: Seq<nat>)
    requires
        0 <= i < src.len(),
    ensures
        all_span_text(src, scan_at(src, i, levels).tokens),
        i + scan_at(src, i, levels).len <= src.len(),
{
    let scan = scan_at(src, i, levels);
    let c = src[i];
    if is_letter(c) {
        let n = 1 + run_len(src, i + 1, CharClass::Name);
        lemma_run_len(src, i + 1, CharClass::Name);
        lemma_spanning(src, SpecTokenType::Tag(src.subrange(i, i + n)), i, i + n);
    } else if c == '\n' {
        let level = run_len(src, i + 1, CharClass::Only(' '));
        lemma_run_len(src, i + 1, CharClass::Only(' '));
        lemma_spanning(src, SpecTokenType::NewLine, i, i + 1);
        lemma_spanning(src, SpecTokenType::Indent, i + 1, i + 1 + level);
        lemma_spanning(src, SpecTokenType::Outdent, i + 1, i + 1 + level);
    } else if c == ' ' || c == '|' {
        let marker: nat = if c == '|' && i + 1 < src.len() && src[i + 1] == ' ' {
            2
        } else {
            1
        };
        let n = run_len(src, i + marker, CharClass::Except('\n'));
        lemma_run_len(src, i + marker, CharClass::Except('\n'));
        let body = src.subrange(i + marker, i + marker + n);
        lemma_spanning(src, SpecTokenType::Text(body), i, i + marker + n);
    } else if c == '#' || c == '.' {
        let n = run_len(src, i + 1, CharClass::Name);
        lemma_run_len(src, i + 1, CharClass::Name);
        let name = src.subrange(i + 1, i + 1 + n);
        lemma_spanning(src, SpecTokenType::Id(name), i, i + 1 + n);
        lemma_spanning(src, SpecTokenType::Class(name), i, i + 1 + n);
    } else if c == '(' {
        lemma_attrs_span(src, i + 1);
    } else if c == '/' {
        lemma_spanning(src, SpecTokenType::Slash, i, i + 1);
    } else if c == ':' {
        lemma_run_len(src, i + 1, CharClass::Only(' '));
        lemma_spanning(src, SpecTokenType::Colon, i, i + 1);
    }
}

/// From any place on, the tokens span parts of the text, and the lexer ends
/// within the text.
proof fn lemma_lex_from_spans(src: Seq<char>, i: int, levels: Seq<nat>)
    requires
        0 <= i <= src.len(),
    ensures
        all_span_text(src, lex_from(src, i, levels).tokens),
        i <= lex_from(src, i, levels).cursor <= src.len(),
    decreases left(src, i),
{
    if i < src.len() {
        let scan = scan_at(src, i, levels);
        lemma_scan_spans(src, i, levels);
        if scan.stop is None {
            lemma_lex_from_spans(src, i + scan.len, levels_at(src, i, levels));
        }
    }
}

/// Every token of a text spans a part of it, and the lexer ends within the
/// text.
pub proof fn lemma_tokens_span_text(src: Seq<char>)
    ensures
        all_span_text(src, lex(src).tokens),
        0 <= lex(src).cursor <= src.len(),
{
    if has_doctype(src) {
        let n = first_line_len(src);
        let next: int = if n < src.len() {
            n as int + 1
        } else {
            n as int
        };
        lemma_run_len(src, 0, CharClass::Except('\n'));
        lemma_spanning(src, SpecTokenType::Doctype(src.subrange(8, n as int)), 0, n as int);
        lemma_lex_from_spans(src, next, seq![0nat]);
    } else {
        lemma_lex_from_spans(src, 0, seq![0nat]);
    }
}

/// The HTML text depends on the node tree alone: trees that are equal as
/// plain values are written as the same text.
pub proof fn lemma_render_is_a_function_of_the_tree(a: Seq<Node>, b: Seq<Node>)
    requires
        nodes_model(a) == nodes_model(b),
    ensures
        document_text(nodes_model(a)) == document_text(nodes_model(b)),
{
}

/// An element is built from tokens that are there: no more are used than are
/// left from index `i` on.
pub proof fn lemma_element_within_tokens(tokens: Seq<SpecToken>, i: int, e: SpecElement)
    requires
        0 <= i <= tokens.len(),
    ensures
        i + element_from(tokens, i, e).used <= tokens.len(),
    decreases remaining(tokens, i), 0nat,
{
    if i < tokens.len() {
        match tokens[i].ty {
            SpecTokenType::Id(value) => {
                lemma_element_within_tokens(tokens, i + 1, with_attr(e, "id"@, value));
            },
            SpecTokenType::Class(value) => {
                lemma_element_within_tokens(tokens, i + 1, with_attr(e, "class"@, value));
            },
            SpecTokenType::Attr(name, value) => {
                lemma_element_within_tokens(tokens, i + 1, with_attr(e, name, value));
            },
            SpecTokenType::Text(body) => {
                lemma_element_within_tokens(
                    tokens,
                    i + 1,
                    with_children(e, seq![SpecNode::Text(body)]),
                );
            },
            SpecTokenType::NewLine => {
                lemma_element_within_tokens(tokens, i + 1, e);
            },
            SpecTokenType::Indent => {
                let block = block_at(tokens, i + 1);
                lemma_block_within_tokens(tokens, i + 1);
                lemma_element_within_tokens(
                    tokens,
                    i + 1 + block.used,
                    with_children(e, block.nodes),
                );
            },
            SpecTokenType::Colon => {
                let child = node_at(tokens, i + 1);
                lemma_node_within_tokens(tokens, i + 1);
                lemma_element_within_tokens(
                    tokens,
                    i + 1 + child.used,
                    with_children(e, seq![child.node]),
                );
            },
            _ => {},
        }
    }
}

/// A node is built from tokens that are there, and from one at least where
/// one is left.
pub proof fn lemma_node_within_tokens(tokens: Seq<SpecToken>, i: int)
    requires
        0 <= i <= tokens.len(),
    ensures
        i + node_at(tokens, i).used <= tokens.len(),
        i < tokens.len() ==> node_at(tokens, i).used >= 1,
        i < tokens.len() ==> node_at(tokens, i).used == 1 + node_behind(tokens, i).used,
    decreases remaining(tokens, i), 2nat,
{
    if i < tokens.len() {
        match tokens[i].ty {
            SpecTokenType::Tag(name) => {
                lemma_element_within_tokens(tokens, i + 1, bare(name));
            },
            SpecTokenType::Id(value) => {
                lemma_element_within_tokens(
                    tokens,
                    i + 1,
                    with_attr(bare("div"@), "id"@, value),
                );
            },
            SpecTokenType::Class(value) => {
                lemma_element_within_tokens(
                    tokens,
                    i + 1,
                    with_attr(bare("div"@), "class"@, value),
                );
            },
            _ => {},
        }
    }
}

/// A block is built from tokens that are there.
pub proof fn lemma_block_within_tokens(tokens: Seq<SpecToken>, i: int)
    requires
        0 <= i <= tokens.len(),
    ensures
        i + block_at(tokens, i).used <= tokens.len(),
    decreases remaining(tokens, i), 3nat,
{
    if i < tokens.len() {
        match tokens[i].ty {
            SpecTokenType::Outdent => {},
            SpecTokenType::NewLine | SpecTokenType::Slash => {
                lemma_block_within_tokens(tokens, i + 1);
            },
            _ => {
                let first = node_behind(tokens, i);
                lemma_node_within_tokens(tokens, i);
                lemma_block_within_tokens(tokens, i + 1 + first.used);
            },
        }
    }
}

/// A void element with attributes is written as the same text whatever its
/// children are: none of them is shown.
pub proof fn lemma_void_element_shows_no_children(
    e: SpecElement,
    children: Seq<SpecNode>,
    depth: nat,
)
    requires
        is_void(e.name),
        e.attrs.len() > 0,
    ensures
        element_text(SpecElement { name: e.name, attrs: e.attrs, children }, depth)
            == element_text(e, depth),
{
}

} // verus!
