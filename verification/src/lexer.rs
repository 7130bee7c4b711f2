//! The splitter: fences are found one after the other, and the text is cut at
//! their markers and, where a lexer exists for the language, inside their
//! bodies.

use crate::fence::{
    fence_at, fence_body, fence_close, find_fence, first_fence, lemma_fence_at_is_fence,
    lemma_fence_determined, lemma_first_fence, lemma_first_fence_ends, FenceMatch,
};
use crate::language::{
    default_languages, is_configured, language_bytes, names_language, resolution, resolve,
    Backend, Resolution,
};
use crate::python::{
    lemma_lexed_spans_tile, lex_fails, lex_python_code, lexed_spans, python_spans, try_lex_python,
};
use crate::span::{
    ascending, drop_empty, is_partition, joined, keep_nonempty, lemma_keep_nonempty_tiles,
    lemma_opaque_tiles, lemma_partition_ascending, lemma_partition_joined, lemma_tiles_concat,
    opaque_span, span_ints, tiles, whole_span, Span,
};
use crate::text::{lemma_boundary_after_ascii, slice_str};
use vstd::prelude::*;
use vstd::slice::slice_subrange;
use vstd::std_specs::cmp::PartialEqSpecImpl;
use vstd::string::*;
use vstd::utf8::{
    decode_utf8, encode_utf8_valid_utf8, is_char_boundary_iff_not_is_continuation_byte,
};

verus! {

/// The text between a cursor and what follows it, as one span; nothing where
/// the cursor is already there.
pub open spec fn lead(from: int, to: int) -> Seq<(int, int)> {
    if from < to {
        seq![(from, to)]
    } else {
        Seq::empty()
    }
}

/// The tag of the fence that begins at `start`.
pub open spec fn fence_tag(text: Seq<u8>, start: int) -> Seq<u8> {
    text.subrange(start + 3, fence_body(text, start) - 1)
}

/// The spans of the body of the fence that begins at `start`: those of the
/// lexer that its tag resolves to, or the whole body as one span.
pub open spec fn inner_spans(languages: Seq<Seq<u8>>, text: Seq<u8>, start: int) -> Seq<
    (int, int),
> {
    let body = fence_body(text, start);
    let close = fence_close(text, start).unwrap();
    match resolution(languages, fence_tag(text, start)) {
        Resolution::Backend(Backend::Python) => lexed_spans(
            decode_utf8(text.subrange(body, close)),
            body,
            close - body,
        ),
        _ => opaque_span(body, close - body),
    }
}

/// The spans of the fence that begins at `start`: its opening marker, the
/// spans of its body, its closing marker.
pub open spec fn fence_spans(languages: Seq<Seq<u8>>, text: Seq<u8>, start: int) -> Seq<
    (int, int),
> {
    let body = fence_body(text, start);
    let close = fence_close(text, start).unwrap();
    seq![(start, body)] + inner_spans(languages, text, start) + seq![(close, close + 3)]
}

/// The spans of the text from `from` on, before the empty ones are dropped:
/// the text up to the next fence, the spans of that fence, and the spans of
/// what follows it; the rest of the text where no fence follows.
pub open spec fn candidates(languages: Seq<Seq<u8>>, text: Seq<u8>, from: int) -> Seq<(int, int)>
    decreases text.len() - from,
    via candidates_decreases
{
    match first_fence(text, from) {
        Some(start) => lead(from, start) + fence_spans(languages, text, start) + candidates(
            languages,
            text,
            fence_close(text, start).unwrap() + 3,
        ),
        None => lead(from, text.len() as int),
    }
}

#[via_fn]
proof fn candidates_decreases(languages: Seq<Seq<u8>>, text: Seq<u8>, from: int) {
    lemma_first_fence_ends(text, from);
}

/// The spans that a text is split into under the configured languages.
pub open spec fn split_spans(languages: Seq<Seq<u8>>, text: Seq<u8>) -> Seq<(int, int)> {
    keep_nonempty(candidates(languages, text, 0))
}

/// Why the body of a fence with a configured tag was left whole.
#[derive(Clone, Copy, Debug, PartialEq, Eq, Structural)]
pub enum NoticeKind {
    /// No lexer exists for the language.
    Unsupported,
    /// The lexer could not cut the body.
    LexFailure,
}

/// A notice on a fence whose body was left whole although its tag is
/// configured.
#[derive(Clone, Copy, Debug, PartialEq, Eq, Structural)]
pub struct Notice {
    pub kind: NoticeKind,
    pub fence: FenceMatch,
}

/// The notices by their kind and by where their fence begins.
pub open spec fn notice_views(notices: Seq<Notice>) -> Seq<(NoticeKind, int)> {
    Seq::new(notices.len(), |i: int| (notices[i].kind, notices[i].fence.start as int))
}

/// The notice that the fence that begins at `start` gives, if any.
pub open spec fn fence_notice(languages: Seq<Seq<u8>>, text: Seq<u8>, start: int) -> Option<
    NoticeKind,
> {
    let body = fence_body(text, start);
    let close = fence_close(text, start).unwrap();
    match resolution(languages, fence_tag(text, start)) {
        Resolution::Backend(Backend::Python) => if lex_fails(
            decode_utf8(text.subrange(body, close)),
            close - body,
        ) {
            Some(NoticeKind::LexFailure)
        } else {
            None
        },
        Resolution::Unsupported => Some(NoticeKind::Unsupported),
        Resolution::Unconfigured => None,
    }
}

/// The notices of the fences from `from` on, in the order of the fences.
pub open spec fn notices(languages: Seq<Seq<u8>>, text: Seq<u8>, from: int) -> Seq<
    (NoticeKind, int),
>
    decreases text.len() - from,
    via notices_decreases
{
    match first_fence(text, from) {
        Some(start) => {
            let rest = notices(languages, text, fence_close(text, start).unwrap() + 3);
            match fence_notice(languages, text, start) {
                Some(kind) => seq![(kind, start)] + rest,
                None => rest,
            }
        },
        None => Seq::empty(),
    }
}

#[via_fn]
proof fn notices_decreases(languages: Seq<Seq<u8>>, text: Seq<u8>, from: int) {
    lemma_first_fence_ends(text, from);
}

/// The spans of a fence tile it.
pub proof fn lemma_fence_spans_tile(languages: Seq<Seq<u8>>, text: Seq<u8>, start: int)
    requires
        fence_at(text, start),
    ensures
        tiles(
            fence_spans(languages, text, start),
            start,
            fence_close(text, start).unwrap() + 3,
        ),
{
    let body = fence_body(text, start);
    let close = fence_close(text, start).unwrap();
    lemma_fence_at_is_fence(text, start);
    lemma_opaque_tiles(start, body - start);
    lemma_opaque_tiles(body, close - body);
    lemma_opaque_tiles(close, 3);
    lemma_lexed_spans_tile(decode_utf8(text.subrange(body, close)), body, close - body);
    let open = seq![(start, body)];
    let inner = inner_spans(languages, text, start);
    let shut = seq![(close, close + 3)];
    assert(open =~= opaque_span(start, body - start));
    assert(shut =~= opaque_span(close, 3));
    lemma_tiles_concat(open, inner, start, body, close);
    lemma_tiles_concat(open + inner, shut, start, close, close + 3);
}

/// The candidate spans from `from` on tile the rest of the text.
pub proof fn lemma_candidates_tile(languages: Seq<Seq<u8>>, text: Seq<u8>, from: int)
    requires
        0 <= from <= text.len(),
    ensures
        tiles(candidates(languages, text, from), from, text.len() as int),
    decreases text.len() - from,
{
    lemma_first_fence(text, from);
    match first_fence(text, from) {
        Some(start) => {
            let close = fence_close(text, start).unwrap();
            lemma_fence_at_is_fence(text, start);
            lemma_fence_spans_tile(languages, text, start);
            lemma_candidates_tile(languages, text, close + 3);
            lemma_lead_tiles(from, start);
            let head = lead(from, start);
            let fence = fence_spans(languages, text, start);
            let rest = candidates(languages, text, close + 3);
            lemma_tiles_concat(head, fence, from, start, close + 3);
            lemma_tiles_concat(head + fence, rest, from, close + 3, text.len() as int);
        },
        None => {
            lemma_lead_tiles(from, text.len() as int);
        },
    }
}

/// The lead from a cursor tiles the range it skips.
pub proof fn lemma_lead_tiles(from: int, to: int)
    requires
        from <= to,
    ensures
        tiles(lead(from, to), from, to),
{
    if from < to {
        lemma_opaque_tiles(from, to - from);
        assert(lead(from, to) =~= opaque_span(from, to - from));
    }
}

/// The spans of a text cut it into non-empty pieces without gap or overlap,
/// in ascending order, and the pieces put together are the text.
pub proof fn lemma_split_is_partition(languages: Seq<Seq<u8>>, text: Seq<u8>)
    ensures
        is_partition(split_spans(languages, text), text.len() as int),
        ascending(split_spans(languages, text)),
        joined(text, split_spans(languages, text)) == text,
{
    lemma_candidates_tile(languages, text, 0);
    lemma_keep_nonempty_tiles(candidates(languages, text, 0), 0, text.len() as int);
    lemma_partition_ascending(split_spans(languages, text), 0, text.len() as int);
    lemma_partition_joined(text, split_spans(languages, text));
}

/// The two lists hold the same languages in the same order.
pub open spec fn same_languages(a: Seq<String>, b: Seq<String>) -> bool {
    &&& a.len() == b.len()
    &&& forall|i: int| 0 <= i < a.len() ==> (#[trigger] a[i])@ == b[i]@
}

/// Splitters with the same languages split every text into the same spans.
pub proof fn lemma_split_is_deterministic(a: CodeLexer, b: CodeLexer, text: Seq<u8>)
    requires
        same_languages(a.languages@, b.languages@),
    ensures
        split_spans(a.language_bytes(), text) == split_spans(b.language_bytes(), text),
{
    assert(a.language_bytes() =~= b.language_bytes());
}

/// A text that holds no fence and is not empty comes back as one span.
pub proof fn lemma_split_without_fence(languages: Seq<Seq<u8>>, text: Seq<u8>)
    requires
        first_fence(text, 0) is None,
        text.len() > 0,
    ensures
        split_spans(languages, text) == seq![(0int, text.len() as int)],
{
    let whole = seq![(0int, text.len() as int)];
    assert(candidates(languages, text, 0) == whole);
    reveal_with_fuel(Seq::filter, 2);
    assert(whole.drop_last() =~= Seq::empty());
    assert(keep_nonempty(whole) =~= whole);
}

/// Splits text at its fenced code blocks, and the code of the configured
/// languages at its tokens.
#[derive(Clone, Debug)]
pub struct CodeLexer {
    /// The tags of the languages whose code is lexed, in any case of their
    /// letters.
    pub languages: Vec<String>,
}

impl CodeLexer {
    /// The bytes of each configured language.
    pub open spec fn language_bytes(&self) -> Seq<Seq<u8>> {
        language_bytes(self.languages@)
    }

    /// A splitter for the given languages.
    pub fn new(languages: Vec<String>) -> (lexer: Self)
        ensures
            lexer.languages == languages,
    {
        Self { languages }
    }

    /// A splitter for `python` and `py`.
    pub fn default() -> (lexer: Self)
        ensures
            lexer.languages@.len() == 2,
            lexer.languages@[0]@ == "python"@,
            lexer.languages@[1]@ == "py"@,
    {
        Self::new(default_languages())
    }

    /// Whether `lang` is one of the configured languages, but for the case of
    /// ASCII letters.
    pub fn is_supported_language(&self, lang: &str) -> (found: bool)
        ensures
            found == is_configured(self.language_bytes(), lang.spec_bytes()),
    {
        names_language(&self.languages, lang.as_bytes())
    }

    /// What `tag` resolves to: a lexer, a configured language without one, or
    /// a tag that is empty or not configured.
    pub fn resolve(&self, tag: &str) -> (r: Resolution)
        ensures
            r == resolution(self.language_bytes(), tag.spec_bytes()),
    {
        resolve(&self.languages, tag.as_bytes())
    }

    /// The spans of Python code placed at `offset`. They tile
    /// `[offset, offset + code.len())`; code that the lexer refuses comes back
    /// as one span.
    pub fn lex_python(&self, code: &str, offset: usize) -> (spans: Vec<Span>)
        requires
            offset + code.spec_bytes().len() <= usize::MAX,
        ensures
            span_ints(spans@) == python_spans(code@, offset as int),
            tiles(span_ints(spans@), offset as int, offset + code.spec_bytes().len()),
    {
        lex_python_code(code, offset)
    }

    /// The spans of code under the tag `lang`, placed at `offset`: those of
    /// the lexer that the tag resolves to under the configured languages, or
    /// the whole code as one span where the tag is empty, not configured, or
    /// configured without a lexer.
    pub fn lex_code(&self, lang: &str, code: &str, offset: usize) -> (spans: Vec<Span>)
        requires
            offset + code.spec_bytes().len() <= usize::MAX,
        ensures
            span_ints(spans@) == match resolution(self.language_bytes(), lang.spec_bytes()) {
                Resolution::Backend(Backend::Python) => python_spans(code@, offset as int),
                _ => opaque_span(offset as int, code.spec_bytes().len() as int),
            },
            tiles(span_ints(spans@), offset as int, offset + code.spec_bytes().len()),
    {
        match self.resolve(lang) {
            Resolution::Backend(Backend::Python) => self.lex_python(code, offset),
            _ => whole_span(offset, offset + code.len()),
        }
    }

    /// The spans of the body of a fence of `text`, and the notice that the
    /// fence gives.
    fn lex_body(&self, text: &str, m: FenceMatch) -> (r: (Vec<Span>, Option<NoticeKind>))
        requires
            m.matches(text.spec_bytes()),
        ensures
            span_ints(r.0@) == inner_spans(
                self.language_bytes(),
                text.spec_bytes(),
                m.start as int,
            ),
            r.1 == fence_notice(self.language_bytes(), text.spec_bytes(), m.start as int),
    {
        broadcast use encode_utf8_valid_utf8;

        let bytes = text.as_bytes();
        proof {
            lemma_fence_determined(
                bytes@,
                m.start as int,
                m.body_start as int,
                m.body_end as int,
            );
        }
        let tag = slice_subrange(bytes, m.start + 3, m.body_start - 1);
        match resolve(&self.languages, tag) {
            Resolution::Backend(Backend::Python) => {
                proof {
                    lemma_boundary_after_ascii(bytes@, m.body_start - 1);
                    is_char_boundary_iff_not_is_continuation_byte(bytes@, m.body_end as int);
                }
                let code = slice_str(text, m.body_start, m.body_end);
                match try_lex_python(code, m.body_start) {
                    Some(spans) => (spans, None),
                    None => (
                        whole_span(m.body_start, m.body_end),
                        Some(NoticeKind::LexFailure),
                    ),
                }
            },
            Resolution::Unsupported => (
                whole_span(m.body_start, m.body_end),
                Some(NoticeKind::Unsupported),
            ),
            Resolution::Unconfigured => (whole_span(m.body_start, m.body_end), None),
        }
    }

    /// Splits `text` into spans: see `split_spans`.
    ///
    /// The spans cut the text into non-empty pieces without gap or overlap, in
    /// ascending order, and the pieces put together are the text.
    pub fn pre_tokenize(&self, text: &str) -> (spans: Vec<Span>)
        ensures
            span_ints(spans@) == split_spans(self.language_bytes(), text.spec_bytes()),
            is_partition(span_ints(spans@), text.spec_bytes().len() as int),
            ascending(span_ints(spans@)),
            joined(text.spec_bytes(), span_ints(spans@)) == text.spec_bytes(),
    {
        self.pre_tokenize_with_notices(text).0
    }

    /// Splits `text` into spans, as `pre_tokenize` does, and says of which
    /// fences the body was left whole although their tag is configured: see
    /// `notices`.
    pub fn pre_tokenize_with_notices(&self, text: &str) -> (r: (Vec<Span>, Vec<Notice>))
        ensures
            span_ints(r.0@) == split_spans(self.language_bytes(), text.spec_bytes()),
            is_partition(span_ints(r.0@), text.spec_bytes().len() as int),
            ascending(span_ints(r.0@)),
            joined(text.spec_bytes(), span_ints(r.0@)) == text.spec_bytes(),
            notice_views(r.1@) == notices(self.language_bytes(), text.spec_bytes(), 0),
            forall|i: int|
                0 <= i < r.1@.len() ==> (#[trigger] r.1@[i]).fence.matches(text.spec_bytes()),
    {
        let bytes = text.as_bytes();
        let n = bytes.len();
        let ghost languages = self.language_bytes();
        let ghost all = candidates(languages, bytes@, 0);
        let ghost all_notices = notices(languages, bytes@, 0);
        let mut splits: Vec<Span> = Vec::new();
        let mut found: Vec<Notice> = Vec::new();
        let mut cursor: usize = 0;
        proof {
            assert(span_ints(splits@) + all =~= all);
            assert(notice_views(found@) + all_notices =~= all_notices);
        }
        loop
            invariant
                bytes@ == text.spec_bytes(),
                n == bytes@.len(),
                languages == self.language_bytes(),
                all == candidates(languages, bytes@, 0),
                cursor <= n,
                span_ints(splits@) + candidates(languages, bytes@, cursor as int) == all,
                all_notices == notices(languages, bytes@, 0),
                notice_views(found@) + notices(languages, bytes@, cursor as int) == all_notices,
                forall|i: int|
                    0 <= i < found@.len() ==> (#[trigger] found@[i]).fence.matches(bytes@),
            ensures
                first_fence(bytes@, cursor as int) is None,
            decreases n - cursor,
        {
            let m = match find_fence(bytes, cursor) {
                Some(m) => m,
                None => {
                    break;
                },
            };
            let ghost before = span_ints(splits@);
            let ghost head = lead(cursor as int, m.start as int);
            let ghost inner = inner_spans(languages, bytes@, m.start as int);
            let ghost rest = candidates(languages, bytes@, m.body_end + 3);
            if m.start > cursor {
                splits.push((cursor, m.start));
            }
            assert(span_ints(splits@) =~= before + head);
            splits.push((m.start, m.body_start));
            let ghost noticed = notice_views(found@);
            let ghost later = notices(languages, bytes@, m.body_end + 3);
            let (mut body, notice) = self.lex_body(text, m);
            splits.append(&mut body);
            match notice {
                Some(kind) => {
                    found.push(Notice { kind, fence: m });
                    assert(notice_views(found@) =~= noticed + seq![(kind, m.start as int)]);
                    assert(noticed + seq![(kind, m.start as int)] + later =~= noticed + (seq![
                        (kind, m.start as int),
                    ] + later));
                },
                None => {},
            }
            splits.push((m.body_end, m.body_end + 3));
            cursor = m.body_end + 3;
            proof {
                let fence = fence_spans(languages, bytes@, m.start as int);
                assert(fence == seq![(m.start as int, m.body_start as int)] + inner + seq![
                    (m.body_end as int, m.body_end + 3),
                ]);
                assert(span_ints(splits@) =~= before + head + fence);
                assert(before + head + fence + rest =~= before + (head + fence + rest));
            }
        }
        if cursor < n {
            splits.push((cursor, n));
        }
        proof {
            assert(span_ints(splits@) =~= all);
            assert(notice_views(found@) =~= all_notices);
            lemma_split_is_partition(languages, bytes@);
        }
        (drop_empty(&splits), found)
    }
}

impl PartialEq for CodeLexer {
    /// Two splitters are equal where they hold the same languages in the
    /// same order.
    fn eq(&self, other: &Self) -> (r: bool) {
        if self.languages.len() != other.languages.len() {
            return false;
        }
        let mut i: usize = 0;
        while i < self.languages.len()
            invariant
                i <= self.languages@.len(),
                self.languages@.len() == other.languages@.len(),
                forall|k: int|
                    0 <= k < i ==> (#[trigger] self.languages@[k])@ == other.languages@[k]@,
            decreases self.languages@.len() - i,
        {
            if !(self.languages[i] == other.languages[i]) {
                return false;
            }
            i += 1;
        }
        true
    }
}

impl PartialEqSpecImpl for CodeLexer {
    open spec fn obeys_eq_spec() -> bool {
        true
    }

    open spec fn eq_spec(&self, other: &Self) -> bool {
        same_languages(self.languages@, other.languages@)
    }
}

} // verus!
