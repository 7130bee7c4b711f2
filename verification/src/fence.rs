//! Finding fenced blocks in a text.
//!
//! A fence is three backticks, a possibly empty tag of word bytes, a line
//! feed, a body, and three backticks. The body ends at the first three
//! backticks behind the line feed, so a fence never holds another one. An
//! opening marker that no three backticks follow is no fence.

use crate::span::Span;
use vstd::prelude::*;

verus! {

/// The backtick.
pub const TICK: u8 = 0x60;

/// The line feed.
pub const NEWLINE: u8 = 0x0a;

/// The bytes a tag is made of: ASCII letters, ASCII digits and the underscore.
pub open spec fn is_word_byte(b: u8) -> bool {
    ||| 0x30 <= b <= 0x39
    ||| 0x41 <= b <= 0x5a
    ||| 0x61 <= b <= 0x7a
    ||| b == 0x5f
}

/// Three backticks stand at `i`.
pub open spec fn ticks_at(text: Seq<u8>, i: int) -> bool {
    &&& 0 <= i
    &&& i + 3 <= text.len()
    &&& text[i] == TICK
    &&& text[i + 1] == TICK
    &&& text[i + 2] == TICK
}

/// `start`, `body` and `close` are the offsets of a fence: of its first
/// backtick, of the first byte behind the line feed of its opening marker, and
/// of the first backtick of its closing marker.
pub open spec fn is_fence(text: Seq<u8>, start: int, body: int, close: int) -> bool {
    &&& ticks_at(text, start)
    &&& start + 3 < body <= text.len()
    &&& forall|k: int| start + 3 <= k < body - 1 ==> is_word_byte(#[trigger] text[k])
    &&& text[body - 1] == NEWLINE
    &&& body <= close
    &&& ticks_at(text, close)
    &&& forall|k: int| body <= k < close ==> !#[trigger] ticks_at(text, k)
}

/// The first offset at or behind `k` that holds no word byte; the length of
/// the text if word bytes run to its end.
pub open spec fn tag_end(text: Seq<u8>, k: int) -> int
    decreases text.len() - k,
{
    if 0 <= k < text.len() && is_word_byte(text[k]) {
        tag_end(text, k + 1)
    } else {
        k
    }
}

/// The first offset at or behind `k` where three backticks stand.
pub open spec fn next_ticks(text: Seq<u8>, k: int) -> Option<int>
    decreases text.len() - k,
{
    if k < 0 || k + 3 > text.len() {
        None
    } else if ticks_at(text, k) {
        Some(k)
    } else {
        next_ticks(text, k + 1)
    }
}

/// Where the body of a fence that begins at `start` begins.
pub open spec fn fence_body(text: Seq<u8>, start: int) -> int {
    tag_end(text, start + 3) + 1
}

/// Where the closing marker of a fence that begins at `start` begins.
pub open spec fn fence_close(text: Seq<u8>, start: int) -> Option<int> {
    next_ticks(text, fence_body(text, start))
}

/// A fence begins at `start`.
pub open spec fn fence_at(text: Seq<u8>, start: int) -> bool {
    &&& ticks_at(text, start)
    &&& tag_end(text, start + 3) < text.len()
    &&& text[tag_end(text, start + 3)] == NEWLINE
    &&& fence_close(text, start) is Some
}

/// Where the first fence at or behind `from` begins.
pub open spec fn first_fence(text: Seq<u8>, from: int) -> Option<int>
    decreases text.len() - from,
{
    if from < 0 || from >= text.len() {
        None
    } else if fence_at(text, from) {
        Some(from)
    } else {
        first_fence(text, from + 1)
    }
}

/// A tag runs over word bytes only, and stops at the first other byte.
pub proof fn lemma_tag_end(text: Seq<u8>, k: int)
    requires
        0 <= k <= text.len(),
    ensures
        k <= tag_end(text, k) <= text.len(),
        forall|m: int| k <= m < tag_end(text, k) ==> is_word_byte(#[trigger] text[m]),
        tag_end(text, k) < text.len() ==> !is_word_byte(text[tag_end(text, k)]),
    decreases text.len() - k,
{
    if k < text.len() && is_word_byte(text[k]) {
        lemma_tag_end(text, k + 1);
    }
}

/// `next_ticks` finds the first three backticks, and finds none only where
/// there are none.
pub proof fn lemma_next_ticks(text: Seq<u8>, k: int)
    requires
        0 <= k,
    ensures
        match next_ticks(text, k) {
            Some(j) => k <= j && ticks_at(text, j) && forall|m: int|
                k <= m < j ==> !#[trigger] ticks_at(text, m),
            None => forall|m: int| k <= m ==> !#[trigger] ticks_at(text, m),
        },
    decreases text.len() - k,
{
    if k + 3 <= text.len() && !ticks_at(text, k) {
        lemma_next_ticks(text, k + 1);
    }
}

/// Where `fence_at` holds, the offsets it computes are those of a fence.
pub proof fn lemma_fence_at_is_fence(text: Seq<u8>, start: int)
    requires
        fence_at(text, start),
    ensures
        is_fence(text, start, fence_body(text, start), fence_close(text, start).unwrap()),
{
    lemma_tag_end(text, start + 3);
    lemma_next_ticks(text, fence_body(text, start));
}

/// The offsets of a fence are determined by where it begins.
pub proof fn lemma_fence_determined(text: Seq<u8>, start: int, body: int, close: int)
    requires
        is_fence(text, start, body, close),
    ensures
        fence_at(text, start),
        body == fence_body(text, start),
        fence_close(text, start) == Some(close),
{
    lemma_tag_end(text, start + 3);
    let e = tag_end(text, start + 3);
    if e < body - 1 {
        assert(is_word_byte(text[e]));
    }
    if body - 1 < e {
        assert(is_word_byte(text[body - 1]));
    }
    lemma_next_ticks(text, body);
    match next_ticks(text, body) {
        Some(j) => {
            if j < close {
                assert(!ticks_at(text, j));
            }
            if close < j {
                assert(!ticks_at(text, close));
            }
        },
        None => {
            assert(!ticks_at(text, close));
        },
    }
}

/// `first_fence` finds the first offset where a fence begins, and finds none
/// only where no fence begins.
pub proof fn lemma_first_fence(text: Seq<u8>, from: int)
    requires
        0 <= from,
    ensures
        match first_fence(text, from) {
            Some(s) => from <= s < text.len() && fence_at(text, s) && forall|i: int|
                from <= i < s ==> !#[trigger] fence_at(text, i),
            None => forall|i: int| from <= i ==> !#[trigger] fence_at(text, i),
        },
    decreases text.len() - from,
{
    if from < text.len() && !fence_at(text, from) {
        lemma_first_fence(text, from + 1);
    }
}

/// The fence that `first_fence` finds ends behind `from` and inside the text,
/// so that a search that goes on behind it comes to an end.
pub proof fn lemma_first_fence_ends(text: Seq<u8>, from: int)
    ensures
        match first_fence(text, from) {
            Some(start) => from <= start && start + 3 < fence_body(text, start) && fence_body(
                text,
                start,
            ) <= fence_close(text, start).unwrap() && fence_close(text, start).unwrap() + 3
                <= text.len(),
            None => true,
        },
{
    match first_fence(text, from) {
        Some(start) => {
            lemma_first_fence(text, from);
            lemma_fence_at_is_fence(text, start);
        },
        None => {},
    }
}

/// Where no fence begins at or behind `from`, `first_fence` finds none.
pub proof fn lemma_no_fence(text: Seq<u8>, from: int)
    requires
        forall|i: int| from <= i ==> !#[trigger] fence_at(text, i),
    ensures
        first_fence(text, from) is None,
    decreases text.len() - from,
{
    if 0 <= from < text.len() {
        lemma_no_fence(text, from + 1);
    }
}

/// An opening marker that no closing marker follows is followed by no fence
/// at all: whatever opens behind it would need three backticks that are not
/// there.
pub proof fn lemma_unclosed_is_last(text: Seq<u8>, start: int)
    requires
        ticks_at(text, start),
        tag_end(text, start + 3) < text.len(),
        text[tag_end(text, start + 3)] == NEWLINE,
        fence_close(text, start) is None,
    ensures
        first_fence(text, start) is None,
{
    let e = tag_end(text, start + 3);
    lemma_tag_end(text, start + 3);
    lemma_next_ticks(text, e + 1);
    assert forall|i: int| start <= i implies !#[trigger] fence_at(text, i) by {
        if start < i <= e {
            if i <= start + 2 {
                assert(text[start + 3] != TICK) by {
                    if start + 3 < e {
                        assert(is_word_byte(text[start + 3]));
                    }
                }
            } else {
                assert(text[i] != TICK) by {
                    if i < e {
                        assert(is_word_byte(text[i]));
                    }
                }
            }
            assert(!ticks_at(text, i));
        } else if e < i {
            assert(!ticks_at(text, i));
        }
    }
    lemma_no_fence(text, start);
}

/// A fence found in a text, by the offsets of its parts.
#[derive(Clone, Copy, Debug, PartialEq, Eq, Structural)]
pub struct FenceMatch {
    /// Offset of the first backtick of the opening marker.
    pub start: usize,
    /// Offset of the first byte of the body, just behind the line feed of the
    /// opening marker.
    pub body_start: usize,
    /// Offset of the first backtick of the closing marker, where the body ends.
    pub body_end: usize,
}

impl FenceMatch {
    /// The offsets are those of a fence of `text`.
    pub open spec fn matches(self, text: Seq<u8>) -> bool {
        is_fence(text, self.start as int, self.body_start as int, self.body_end as int)
    }

    /// The whole fence, markers included.
    pub fn whole(&self, text: &[u8]) -> (s: Span)
        requires
            self.matches(text@),
        ensures
            s == (self.start, (self.body_end + 3) as usize),
            s.1 <= text@.len(),
    {
        let n = text.len();
        assert(self.body_end + 3 <= n);
        (self.start, self.body_end + 3)
    }

    /// The opening marker: the backticks, the tag and the line feed.
    pub fn open_marker(&self) -> (s: Span)
        ensures
            s == (self.start, self.body_start),
    {
        (self.start, self.body_start)
    }

    /// The tag between the opening backticks and the line feed; empty where
    /// the fence names no language.
    pub fn tag(&self, text: &[u8]) -> (s: Span)
        requires
            self.matches(text@),
        ensures
            s == ((self.start + 3) as usize, (self.body_start - 1) as usize),
            s.0 <= s.1 < text@.len(),
    {
        (self.start + 3, self.body_start - 1)
    }

    /// The body between the two markers; it may be empty.
    pub fn body(&self) -> (s: Span)
        ensures
            s == (self.body_start, self.body_end),
    {
        (self.body_start, self.body_end)
    }

    /// The closing marker: three backticks.
    pub fn close_marker(&self, text: &[u8]) -> (s: Span)
        requires
            self.matches(text@),
        ensures
            s == (self.body_end, (self.body_end + 3) as usize),
            s.1 <= text@.len(),
    {
        let n = text.len();
        assert(self.body_end + 3 <= n);
        (self.body_end, self.body_end + 3)
    }
}

/// Whether `b` is a word byte.
pub fn is_word(b: u8) -> (r: bool)
    ensures
        r == is_word_byte(b),
{
    (0x30 <= b && b <= 0x39) || (0x41 <= b && b <= 0x5a) || (0x61 <= b && b <= 0x7a) || b == 0x5f
}

/// Whether three backticks stand at `i`.
fn has_ticks(text: &[u8], i: usize) -> (r: bool)
    ensures
        r == ticks_at(text@, i as int),
{
    let n = text.len();
    n >= 3 && i <= n - 3 && text[i] == TICK && text[i + 1] == TICK && text[i + 2] == TICK
}

/// Skips the word bytes at `k`.
fn scan_tag(text: &[u8], k: usize) -> (e: usize)
    requires
        k <= text@.len(),
    ensures
        e == tag_end(text@, k as int),
        k <= e <= text@.len(),
{
    let mut e = k;
    while e < text.len() && is_word(text[e])
        invariant
            k <= e <= text@.len(),
            tag_end(text@, k as int) == tag_end(text@, e as int),
        decreases text@.len() - e,
    {
        e += 1;
    }
    e
}

/// Finds the first three backticks at or behind `k`.
fn find_ticks(text: &[u8], k: usize) -> (r: Option<usize>)
    ensures
        match r {
            Some(j) => next_ticks(text@, k as int) == Some(j as int) && j + 3 <= text@.len(),
            None => next_ticks(text@, k as int) is None,
        },
{
    let n = text.len();
    let mut j = k;
    while n >= 3 && j <= n - 3
        invariant
            n == text@.len(),
            k <= j,
            next_ticks(text@, k as int) == next_ticks(text@, j as int),
        decreases n - j,
    {
        if has_ticks(text, j) {
            return Some(j);
        }
        j += 1;
    }
    None
}

/// Finds the first fence that begins at or behind `from`.
///
/// The result is the fence at `first_fence`, with the offsets of its parts;
/// `None` means that no fence begins at or behind `from`.
pub fn find_fence(text: &[u8], from: usize) -> (found: Option<FenceMatch>)
    ensures
        match found {
            Some(m) => {
                &&& first_fence(text@, from as int) == Some(m.start as int)
                &&& m.body_start == fence_body(text@, m.start as int)
                &&& fence_close(text@, m.start as int) == Some(m.body_end as int)
                &&& m.matches(text@)
                &&& from <= m.start
            },
            None => first_fence(text@, from as int) is None,
        },
{
    let n = text.len();
    let mut i = from;
    while n >= 3 && i <= n - 3
        invariant
            n == text@.len(),
            from <= i,
            first_fence(text@, from as int) == first_fence(text@, i as int),
        decreases n - i,
    {
        if has_ticks(text, i) {
            let e = scan_tag(text, i + 3);
            if e < n && text[e] == NEWLINE {
                match find_ticks(text, e + 1) {
                    Some(c) => {
                        proof {
                            lemma_fence_at_is_fence(text@, i as int);
                        }
                        return Some(FenceMatch { start: i, body_start: e + 1, body_end: c });
                    },
                    None => {
                        proof {
                            lemma_unclosed_is_last(text@, i as int);
                        }
                        return None;
                    },
                }
            }
        }
        i += 1;
    }
    proof {
        assert forall|k: int| i <= k implies !#[trigger] fence_at(text@, k) by {}
        lemma_no_fence(text@, i as int);
    }
    None
}

} // verus!
