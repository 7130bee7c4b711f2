//! Token boundaries of Python code.
//!
//! The tokens come from the lexer of `rustpython_parser`. What is made of them
//! is this module's own: a line terminator is added to the span before it, the
//! gaps between spans are given to the span that follows, and what is left
//! behind the last span becomes a span of its own, so that the spans cover the
//! code from its first byte to its last.

use crate::span::{
    lemma_opaque_tiles, lemma_tiles_push, opaque_span, span_ints, tiles, whole_span, Span,
};
use rustpython_parser::lexer::lex;
use rustpython_parser::{Mode, Tok};
use vstd::prelude::*;
use vstd::string::*;

verus! {

/// What the splitter tells apart among the tokens of the lexer.
#[derive(Clone, Copy, Debug, PartialEq, Eq, Structural)]
pub enum TokenKind {
    /// The marker at the end of the input.
    EndOfFile,
    /// The end of a logical line.
    Newline,
    /// Any other token.
    Other,
}

/// A token by its kind and its byte range in the code that was lexed.
#[derive(Clone, Copy, Debug, PartialEq, Eq, Structural)]
pub struct Token {
    pub kind: TokenKind,
    pub start: usize,
    pub end: usize,
}

/// The longest code, in bytes, that is handed to the lexer.
pub const MAX_LEXED_LEN: usize = 0x7fff_ffff;

/// The tokens that `rustpython_parser::lexer::lex` yields for `code` in module
/// mode, each by its kind and range; `None` where the lexer reports an error.
pub uninterp spec fn python_tokens(code: Seq<char>) -> Option<Seq<Token>>;

/// Runs `rustpython_parser::lexer::lex` over `code` in module mode and
/// collects what it yields up to the first error.
///
/// Not proved: that the result is a function of the code alone, which is
/// all that the contract says of it, and that the lexer returns for every
/// code of at most `MAX_LEXED_LEN` bytes. The lexer counts offsets in 32 bits
/// and, for soft keywords, brackets in a signed 32-bit counter; neither can
/// run over on code that short.
#[verifier::external_body]
fn lex_module(code: &str) -> (tokens: Option<Vec<Token>>)
    requires
        code.spec_bytes().len() <= MAX_LEXED_LEN,
    ensures
        tokens_view(tokens) == python_tokens(code@),
{
    let mut tokens = Vec::new();
    for item in lex(code, Mode::Module) {
        let (tok, range) = item.ok()?;
        let kind = match tok {
            Tok::EndOfFile => TokenKind::EndOfFile,
            Tok::Newline => TokenKind::Newline,
            _ => TokenKind::Other,
        };
        tokens.push(Token { kind, start: range.start().to_usize(), end: range.end().to_usize() });
    }
    Some(tokens)
}

/// The tokens of a lexer's answer as a sequence.
pub open spec fn tokens_view(lexed: Option<Vec<Token>>) -> Option<Seq<Token>> {
    match lexed {
        Some(tokens) => Some(tokens@),
        None => None,
    }
}

/// The tokens lie inside a code of `len` bytes, none runs backwards, and none
/// begins before an earlier one has ended.
pub open spec fn tokens_in_order(tokens: Seq<Token>, len: int) -> bool {
    &&& forall|i: int|
        0 <= i < tokens.len() ==> (#[trigger] tokens[i]).start <= tokens[i].end && tokens[i].end
            <= len
    &&& forall|i: int, j: int|
        0 <= i < j < tokens.len() ==> (#[trigger] tokens[i]).end <= (#[trigger] tokens[j]).start
}

/// The spans lie inside `[from, to]`, none runs backwards, and none begins
/// before an earlier one has ended.
pub open spec fn spans_in_order(spans: Seq<(int, int)>, from: int, to: int) -> bool {
    &&& forall|i: int|
        0 <= i < spans.len() ==> from <= (#[trigger] spans[i]).0 && spans[i].0 <= spans[i].1
            && spans[i].1 <= to
    &&& forall|i: int, j: int|
        0 <= i < j < spans.len() ==> (#[trigger] spans[i]).1 <= (#[trigger] spans[j]).0
}

/// The boundaries that the tokens give, moved by `offset`: the end marker
/// gives none; a line terminator gives none either, and its length is added
/// to the end of the span before it, or lost where there is no span yet; any
/// other token gives its own range.
pub open spec fn merged(tokens: Seq<Token>, offset: int) -> Seq<(int, int)>
    decreases tokens.len(),
{
    if tokens.len() == 0 {
        Seq::empty()
    } else {
        let before = merged(tokens.drop_last(), offset);
        let t = tokens.last();
        match t.kind {
            TokenKind::EndOfFile => before,
            TokenKind::Newline => if before.len() == 0 {
                before
            } else {
                before.update(
                    before.len() - 1,
                    (before.last().0, before.last().1 + (t.end - t.start)),
                )
            },
            TokenKind::Other => before.push((offset + t.start, offset + t.end)),
        }
    }
}

/// Where a list of spans that began at `from` has come to.
pub open spec fn last_end(spans: Seq<(int, int)>, from: int) -> int {
    if spans.len() == 0 {
        from
    } else {
        spans.last().1
    }
}

/// The boundaries with their gaps closed: a span that begins behind the end
/// of the one before it (behind `from`, for the first) begins at that end
/// instead.
pub open spec fn stitched(bounds: Seq<(int, int)>, from: int) -> Seq<(int, int)> {
    Seq::new(
        bounds.len(),
        |k: int|
            {
                let cursor = if k == 0 {
                    from
                } else {
                    bounds[k - 1].1
                };
                (
                    if bounds[k].0 > cursor {
                        cursor
                    } else {
                        bounds[k].0
                    },
                    bounds[k].1,
                )
            },
    )
}

/// The stitched boundaries, and behind them a span for what is left of
/// `[from, to)`.
pub open spec fn covering(bounds: Seq<(int, int)>, from: int, to: int) -> Seq<(int, int)> {
    let spans = stitched(bounds, from);
    let cursor = last_end(spans, from);
    if cursor < to {
        spans.push((cursor, to))
    } else {
        spans
    }
}

/// The lexer's answer can be used for a body of `len` bytes: it holds tokens,
/// and they are in order.
pub open spec fn usable(lexed: Option<Seq<Token>>, len: int) -> bool {
    lexed is Some && tokens_in_order(lexed.unwrap(), len)
}

/// The spans of a body of `len` bytes at `offset`, from what the lexer said of
/// it: the covering of its merged boundaries where the answer can be used,
/// the whole body as one span where the lexer gave an error or tokens out of
/// order.
pub open spec fn body_spans(lexed: Option<Seq<Token>>, offset: int, len: int) -> Seq<(int, int)> {
    if usable(lexed, len) {
        covering(merged(lexed.unwrap(), offset), offset, offset + len)
    } else {
        opaque_span(offset, len)
    }
}

/// A body of `len` bytes that holds `code` cannot be cut: it is too long to be
/// lexed, or the lexer's answer cannot be used.
pub open spec fn lex_fails(code: Seq<char>, len: int) -> bool {
    len > MAX_LEXED_LEN || !usable(python_tokens(code), len)
}

/// The spans of a body of `len` bytes at `offset` that holds `code`: the
/// covering of the merged boundaries of its tokens, or the whole body as one
/// span where it cannot be cut.
pub open spec fn lexed_spans(code: Seq<char>, offset: int, len: int) -> Seq<(int, int)> {
    if lex_fails(code, len) {
        opaque_span(offset, len)
    } else {
        covering(merged(python_tokens(code).unwrap(), offset), offset, offset + len)
    }
}

/// The spans of `code` placed at `offset`.
pub open spec fn python_spans(code: Seq<char>, offset: int) -> Seq<(int, int)> {
    lexed_spans(code, offset, vstd::utf8::encode_utf8(code).len() as int)
}

/// Where the last of the tokens ends; zero where there is none.
pub open spec fn tokens_end(tokens: Seq<Token>) -> int {
    if tokens.len() == 0 {
        0
    } else {
        tokens.last().end as int
    }
}

/// A prefix of tokens in order is in order.
pub proof fn lemma_tokens_prefix(tokens: Seq<Token>, len: int, n: int)
    requires
        tokens_in_order(tokens, len),
        0 <= len,
        0 <= n <= tokens.len(),
    ensures
        tokens_in_order(tokens.take(n), len),
        tokens_end(tokens.take(n)) <= len,
        n < tokens.len() ==> tokens_end(tokens.take(n)) <= tokens[n].start,
{
    let front = tokens.take(n);
    assert forall|i: int| 0 <= i < front.len() implies (#[trigger] front[i]).start <= front[i].end
        && front[i].end <= len by {
        assert(front[i] == tokens[i]);
    }
    assert forall|i: int, j: int| 0 <= i < j < front.len() implies (#[trigger] front[i]).end <= (
    #[trigger] front[j]).start by {
        assert(front[i] == tokens[i]);
        assert(front[j] == tokens[j]);
    }
    if n > 0 {
        assert(front.last() == tokens[n - 1]);
    }
}

/// The boundaries of tokens in order are in order, and end no later than the
/// tokens do.
pub proof fn lemma_merged_in_order(tokens: Seq<Token>, offset: int, len: int)
    requires
        tokens_in_order(tokens, len),
        0 <= len,
    ensures
        spans_in_order(merged(tokens, offset), offset, offset + tokens_end(tokens)),
        tokens_end(tokens) <= len,
    decreases tokens.len(),
{
    if tokens.len() > 0 {
        let front = tokens.drop_last();
        let t = tokens.last();
        lemma_tokens_prefix(tokens, len, tokens.len() - 1);
        assert(front == tokens.take(tokens.len() - 1));
        lemma_merged_in_order(front, offset, len);
        let before = merged(front, offset);
        let after = merged(tokens, offset);
        assert(tokens_end(front) <= t.start <= t.end);
        match t.kind {
            TokenKind::EndOfFile => {},
            TokenKind::Newline => {
                if before.len() > 0 {
                    let n = before.len() - 1;
                    assert forall|i: int| 0 <= i < after.len() implies offset <= (
                    #[trigger] after[i]).0 && after[i].0 <= after[i].1 && after[i].1 <= offset
                        + t.end by {
                        if i < n {
                            assert(after[i] == before[i]);
                        }
                    }
                    assert forall|i: int, j: int| 0 <= i < j < after.len() implies (
                    #[trigger] after[i]).1 <= (#[trigger] after[j]).0 by {
                        assert(after[i] == before[i]);
                        assert(after[j].0 == before[j].0);
                    }
                }
            },
            TokenKind::Other => {
                assert forall|i: int| 0 <= i < after.len() implies offset <= (
                #[trigger] after[i]).0 && after[i].0 <= after[i].1 && after[i].1 <= offset
                    + t.end by {
                    if i < before.len() {
                        assert(after[i] == before[i]);
                    }
                }
                assert forall|i: int, j: int| 0 <= i < j < after.len() implies (
                #[trigger] after[i]).1 <= (#[trigger] after[j]).0 by {
                    assert(after[i] == before[i]);
                    if j < before.len() {
                        assert(after[j] == before[j]);
                    }
                }
            },
        }
    }
}

/// Stitched boundaries that were in order lead from `from` to the end of the
/// last of them.
pub proof fn lemma_stitched_tiles(bounds: Seq<(int, int)>, from: int, to: int)
    requires
        spans_in_order(bounds, from, to),
        from <= to,
    ensures
        tiles(stitched(bounds, from), from, last_end(stitched(bounds, from), from)),
        from <= last_end(stitched(bounds, from), from) <= to,
    decreases bounds.len(),
{
    if bounds.len() > 0 {
        let front = bounds.drop_last();
        assert(spans_in_order(front, from, to)) by {
            assert forall|i: int| 0 <= i < front.len() implies from <= (#[trigger] front[i]).0
                && front[i].0 <= front[i].1 && front[i].1 <= to by {
                assert(front[i] == bounds[i]);
            }
            assert forall|i: int, j: int| 0 <= i < j < front.len() implies (
            #[trigger] front[i]).1 <= (#[trigger] front[j]).0 by {
                assert(front[i] == bounds[i]);
                assert(front[j] == bounds[j]);
            }
        }
        lemma_stitched_tiles(front, from, to);
        assert(stitched(bounds, from).drop_last() =~= stitched(front, from));
        let n = bounds.len() - 1;
        if n > 0 {
            assert(bounds[n - 1].1 <= bounds[n].0);
            assert(front.last() == bounds[n - 1]);
        }
    }
}

/// The covering of boundaries in order tiles `[from, to)`: no byte of the
/// range is left out and none is taken twice.
pub proof fn lemma_covering_tiles(bounds: Seq<(int, int)>, from: int, to: int)
    requires
        spans_in_order(bounds, from, to),
        from <= to,
    ensures
        tiles(covering(bounds, from, to), from, to),
{
    lemma_stitched_tiles(bounds, from, to);
    let spans = stitched(bounds, from);
    let cursor = last_end(spans, from);
    if cursor < to {
        lemma_tiles_push(spans, from, cursor, (cursor, to));
    }
}

/// Whatever the lexer said, the spans of a body tile it.
pub proof fn lemma_body_spans_tile(lexed: Option<Seq<Token>>, offset: int, len: int)
    requires
        0 <= len,
    ensures
        tiles(body_spans(lexed, offset, len), offset, offset + len),
{
    if usable(lexed, len) {
        let tokens = lexed.unwrap();
        lemma_merged_in_order(tokens, offset, len);
        let bounds = merged(tokens, offset);
        assert(spans_in_order(bounds, offset, offset + len));
        lemma_covering_tiles(bounds, offset, offset + len);
    } else {
        lemma_opaque_tiles(offset, len);
    }
}

/// The spans of a body tile it, whatever it holds.
pub proof fn lemma_lexed_spans_tile(code: Seq<char>, offset: int, len: int)
    requires
        0 <= len,
    ensures
        tiles(lexed_spans(code, offset, len), offset, offset + len),
{
    lemma_body_spans_tile(python_tokens(code), offset, len);
    lemma_opaque_tiles(offset, len);
}

/// Whether the tokens are in order inside a code of `len` bytes.
pub fn validate_tokens(tokens: &Vec<Token>, len: usize) -> (ok: bool)
    ensures
        ok == tokens_in_order(tokens@, len as int),
{
    let mut i: usize = 0;
    let mut cursor: usize = 0;
    while i < tokens.len()
        invariant
            i <= tokens.len(),
            cursor == tokens_end(tokens@.take(i as int)),
            tokens_in_order(tokens@.take(i as int), len as int),
        decreases tokens.len() - i,
    {
        let t = tokens[i];
        proof {
            if i > 0 {
                assert(tokens@.take(i as int).last() == tokens@[i - 1]);
            }
        }
        if t.start < cursor || t.end < t.start || len < t.end {
            return false;
        }
        proof {
            let front = tokens@.take(i as int);
            let next = tokens@.take(i as int + 1);
            assert forall|k: int| 0 <= k < next.len() implies (#[trigger] next[k]).start
                <= next[k].end && next[k].end <= len by {
                if k < i {
                    assert(next[k] == front[k]);
                }
            }
            assert forall|k: int, l: int| 0 <= k < l < next.len() implies (#[trigger] next[k]).end
                <= (#[trigger] next[l]).start by {
                assert(next[k] == front[k]);
                if l < i {
                    assert(next[l] == front[l]);
                } else if k < i - 1 {
                    assert(front[k].end <= front[i - 1].start);
                    assert(front[i - 1].start <= front[i - 1].end);
                }
            }
        }
        cursor = t.end;
        i += 1;
    }
    proof {
        assert(tokens@.take(i as int) =~= tokens@);
    }
    true
}

/// Turns tokens into boundaries: see `merged`.
pub fn merge_newlines(tokens: &Vec<Token>, offset: usize, len: usize) -> (bounds: Vec<Span>)
    requires
        tokens_in_order(tokens@, len as int),
        offset + len <= usize::MAX,
    ensures
        span_ints(bounds@) == merged(tokens@, offset as int),
        spans_in_order(span_ints(bounds@), offset as int, offset + len),
{
    let mut bounds: Vec<Span> = Vec::new();
    let mut i: usize = 0;
    proof {
        assert(span_ints(bounds@) =~= merged(tokens@.take(0), offset as int));
    }
    while i < tokens.len()
        invariant
            i <= tokens.len(),
            tokens_in_order(tokens@, len as int),
            offset + len <= usize::MAX,
            span_ints(bounds@) == merged(tokens@.take(i as int), offset as int),
        decreases tokens.len() - i,
    {
        let t = tokens[i];
        proof {
            lemma_tokens_prefix(tokens@, len as int, i as int);
            lemma_merged_in_order(tokens@.take(i as int), offset as int, len as int);
            assert(tokens@.take(i as int + 1).drop_last() =~= tokens@.take(i as int));
            assert(tokens@.take(i as int + 1).last() == t);
        }
        let ghost before = span_ints(bounds@);
        match t.kind {
            TokenKind::EndOfFile => {},
            TokenKind::Newline => {
                let n = bounds.len();
                if n > 0 {
                    let last = bounds[n - 1];
                    assert(before[n - 1] == (last.0 as int, last.1 as int));
                    bounds.set(n - 1, (last.0, last.1 + (t.end - t.start)));
                    assert(span_ints(bounds@) =~= before.update(
                        n - 1,
                        (before.last().0, before.last().1 + (t.end - t.start)),
                    ));
                }
            },
            TokenKind::Other => {
                bounds.push((offset + t.start, offset + t.end));
                assert(span_ints(bounds@) =~= before.push((offset + t.start, offset + t.end)));
            },
        }
        i += 1;
    }
    proof {
        assert(tokens@.take(i as int) =~= tokens@);
        lemma_merged_in_order(tokens@, offset as int, len as int);
    }
    bounds
}

/// Closes the gaps between boundaries and covers what is left of
/// `[from, to)`: see `covering`. Boundaries in order give a tiling of the
/// range.
pub fn stitch(bounds: &Vec<Span>, from: usize, to: usize) -> (spans: Vec<Span>)
    ensures
        span_ints(spans@) == covering(span_ints(bounds@), from as int, to as int),
        from <= to && spans_in_order(span_ints(bounds@), from as int, to as int) ==> tiles(
            span_ints(spans@),
            from as int,
            to as int,
        ),
{
    let mut spans: Vec<Span> = Vec::new();
    let mut cursor = from;
    let mut i: usize = 0;
    let ghost all = stitched(span_ints(bounds@), from as int);
    proof {
        assert(span_ints(spans@) =~= all.take(0));
    }
    while i < bounds.len()
        invariant
            i <= bounds.len(),
            all == stitched(span_ints(bounds@), from as int),
            span_ints(spans@) == all.take(i as int),
            cursor == last_end(all.take(i as int), from as int),
        decreases bounds.len() - i,
    {
        let b = bounds[i];
        let start = if b.0 > cursor {
            cursor
        } else {
            b.0
        };
        proof {
            if i > 0 {
                assert(all.take(i as int).last() == all[i - 1]);
            }
            assert(all[i as int] == (start as int, b.1 as int));
            assert(span_ints(spans@.push((start, b.1))) =~= all.take(i as int + 1));
            assert(all.take(i as int + 1).last() == all[i as int]);
        }
        spans.push((start, b.1));
        cursor = b.1;
        i += 1;
    }
    proof {
        assert(all.take(i as int) =~= all);
    }
    if cursor < to {
        proof {
            assert(span_ints(spans@.push((cursor, to))) =~= all.push((cursor as int, to as int)));
        }
        spans.push((cursor, to));
    }
    proof {
        if from <= to && spans_in_order(span_ints(bounds@), from as int, to as int) {
            lemma_covering_tiles(span_ints(bounds@), from as int, to as int);
        }
    }
    spans
}

/// The spans of a body of `len` bytes at `offset` from the lexer's answer,
/// where it can be used; `None` where it cannot.
pub fn try_token_spans(lexed: &Option<Vec<Token>>, offset: usize, len: usize) -> (spans: Option<
    Vec<Span>,
>)
    requires
        offset + len <= usize::MAX,
    ensures
        spans is Some == usable(tokens_view(*lexed), len as int),
        spans is Some ==> span_ints(spans.unwrap()@) == body_spans(
            tokens_view(*lexed),
            offset as int,
            len as int,
        ),
{
    match lexed {
        Some(tokens) => {
            if validate_tokens(tokens, len) {
                let bounds = merge_newlines(tokens, offset, len);
                Some(stitch(&bounds, offset, offset + len))
            } else {
                None
            }
        },
        None => None,
    }
}

/// The spans of a body of `len` bytes at `offset`, from what the lexer said
/// of it: see `body_spans`. They tile the body whatever the lexer said.
pub fn token_spans(lexed: &Option<Vec<Token>>, offset: usize, len: usize) -> (spans: Vec<Span>)
    requires
        offset + len <= usize::MAX,
    ensures
        span_ints(spans@) == body_spans(tokens_view(*lexed), offset as int, len as int),
        tiles(span_ints(spans@), offset as int, offset + len),
{
    proof {
        lemma_body_spans_tile(tokens_view(*lexed), offset as int, len as int);
    }
    match try_token_spans(lexed, offset, len) {
        Some(spans) => spans,
        None => whole_span(offset, offset + len),
    }
}

/// Lexes `code` as Python and returns its spans, moved by `offset`; `None`
/// where the code cannot be cut: see `lex_fails`.
pub fn try_lex_python(code: &str, offset: usize) -> (spans: Option<Vec<Span>>)
    requires
        offset + code.spec_bytes().len() <= usize::MAX,
    ensures
        spans is None == lex_fails(code@, code.spec_bytes().len() as int),
        spans is Some ==> span_ints(spans.unwrap()@) == python_spans(code@, offset as int),
{
    let len = code.len();
    if len <= MAX_LEXED_LEN {
        let lexed = lex_module(code);
        try_token_spans(&lexed, offset, len)
    } else {
        None
    }
}

/// Lexes `code` as Python and returns its spans, moved by `offset`: see
/// `python_spans`. They tile `[offset, offset + code.len())`; code that
/// cannot be cut comes back as one span.
pub fn lex_python_code(code: &str, offset: usize) -> (spans: Vec<Span>)
    requires
        offset + code.spec_bytes().len() <= usize::MAX,
    ensures
        span_ints(spans@) == python_spans(code@, offset as int),
        tiles(span_ints(spans@), offset as int, offset + code.spec_bytes().len()),
{
    proof {
        lemma_lexed_spans_tile(code@, offset as int, code.spec_bytes().len() as int);
    }
    match try_lex_python(code, offset) {
        Some(spans) => spans,
        None => whole_span(offset, offset + code.len()),
    }
}

} // verus!
