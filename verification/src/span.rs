//! Spans of a text, and what it means for a list of them to cover a range.

use vstd::prelude::*;

verus! {

/// A half-open range `[start, end)` of byte offsets into a text.
pub type Span = (usize, usize);

/// The spans of a vector as pairs of mathematical integers.
pub open spec fn span_ints(spans: Seq<Span>) -> Seq<(int, int)> {
    Seq::new(spans.len(), |i: int| (spans[i].0 as int, spans[i].1 as int))
}

/// The spans lead from `from` to `to`: the first begins at `from`, each begins
/// where the one before it ends, the last ends at `to`, and none runs
/// backwards. Spans of length zero are allowed.
pub open spec fn tiles(spans: Seq<(int, int)>, from: int, to: int) -> bool
    decreases spans.len(),
{
    if spans.len() == 0 {
        from == to
    } else {
        let last = spans.last();
        &&& last.0 <= last.1
        &&& last.1 == to
        &&& tiles(spans.drop_last(), from, last.0)
    }
}

/// Every span holds at least one byte.
pub open spec fn all_nonempty(spans: Seq<(int, int)>) -> bool {
    forall|i: int| 0 <= i < spans.len() ==> (#[trigger] spans[i]).0 < spans[i].1
}

/// Starts grow strictly, and no span begins before an earlier one has ended.
pub open spec fn ascending(spans: Seq<(int, int)>) -> bool {
    forall|i: int, j: int|
        0 <= i < j < spans.len() ==> (#[trigger] spans[i]).0 < (#[trigger] spans[j]).0
            && spans[i].1 <= spans[j].0
}

/// The spans cut a text of `len` bytes into non-empty pieces without gap or
/// overlap.
pub open spec fn is_partition(spans: Seq<(int, int)>, len: int) -> bool {
    tiles(spans, 0, len) && all_nonempty(spans)
}

/// The spans that hold at least one byte, in their order.
pub open spec fn keep_nonempty(spans: Seq<(int, int)>) -> Seq<(int, int)> {
    spans.filter(|s: (int, int)| s.0 < s.1)
}

/// The one span that stands for a range of `len` bytes at `offset` that is
/// not cut.
pub open spec fn opaque_span(offset: int, len: int) -> Seq<(int, int)> {
    seq![(offset, offset + len)]
}

/// The pieces of `text` that the spans address, one after the other.
pub open spec fn joined(text: Seq<u8>, spans: Seq<(int, int)>) -> Seq<u8>
    decreases spans.len(),
{
    if spans.len() == 0 {
        Seq::empty()
    } else {
        joined(text, spans.drop_last()) + text.subrange(spans.last().0, spans.last().1)
    }
}

/// A tiling stays inside its range, in order.
pub proof fn lemma_tiles_bounds(spans: Seq<(int, int)>, from: int, to: int)
    requires
        tiles(spans, from, to),
    ensures
        from <= to,
        forall|i: int|
            0 <= i < spans.len() ==> from <= (#[trigger] spans[i]).0 && spans[i].0 <= spans[i].1
                && spans[i].1 <= to,
        forall|i: int, j: int|
            0 <= i < j < spans.len() ==> (#[trigger] spans[i]).1 <= (#[trigger] spans[j]).0,
    decreases spans.len(),
{
    if spans.len() > 0 {
        let front = spans.drop_last();
        lemma_tiles_bounds(front, from, spans.last().0);
        assert forall|i: int| 0 <= i < spans.len() implies from <= (#[trigger] spans[i]).0
            && spans[i].0 <= spans[i].1 && spans[i].1 <= to by {
            if i < front.len() {
                assert(spans[i] == front[i]);
            }
        }
        assert forall|i: int, j: int| 0 <= i < j < spans.len() implies (#[trigger] spans[i]).1 <= (
        #[trigger] spans[j]).0 by {
            assert(spans[i] == front[i]);
            if j < front.len() {
                assert(spans[j] == front[j]);
            }
        }
    }
}

/// A tiling of non-empty spans is strictly ascending.
pub proof fn lemma_partition_ascending(spans: Seq<(int, int)>, from: int, to: int)
    requires
        tiles(spans, from, to),
        all_nonempty(spans),
    ensures
        ascending(spans),
{
    lemma_tiles_bounds(spans, from, to);
}

/// One span tiles its own range.
pub proof fn lemma_opaque_tiles(offset: int, len: int)
    requires
        0 <= len,
    ensures
        tiles(opaque_span(offset, len), offset, offset + len),
{
    let one = opaque_span(offset, len);
    assert(one.drop_last() =~= Seq::empty());
    assert(tiles(one.drop_last(), offset, offset));
}

/// A span that begins where a tiling ends extends it.
pub proof fn lemma_tiles_push(spans: Seq<(int, int)>, from: int, to: int, next: (int, int))
    requires
        tiles(spans, from, to),
        next.0 == to,
        next.0 <= next.1,
    ensures
        tiles(spans.push(next), from, next.1),
{
    assert(spans.push(next).drop_last() =~= spans);
}

/// Two tilings that meet make one.
pub proof fn lemma_tiles_concat(
    a: Seq<(int, int)>,
    b: Seq<(int, int)>,
    from: int,
    mid: int,
    to: int,
)
    requires
        tiles(a, from, mid),
        tiles(b, mid, to),
    ensures
        tiles(a + b, from, to),
    decreases b.len(),
{
    if b.len() == 0 {
        assert(a + b =~= a);
    } else {
        lemma_tiles_concat(a, b.drop_last(), from, mid, b.last().0);
        assert((a + b).drop_last() =~= a + b.drop_last());
    }
}

/// Dropping the empty spans of a tiling leaves a tiling of the same range.
pub proof fn lemma_keep_nonempty_tiles(spans: Seq<(int, int)>, from: int, to: int)
    requires
        tiles(spans, from, to),
    ensures
        tiles(keep_nonempty(spans), from, to),
        all_nonempty(keep_nonempty(spans)),
    decreases spans.len(),
{
    let keep = |s: (int, int)| s.0 < s.1;
    reveal(Seq::filter);
    if spans.len() > 0 {
        let last = spans.last();
        lemma_keep_nonempty_tiles(spans.drop_last(), from, last.0);
        let front = keep_nonempty(spans.drop_last());
        if last.0 < last.1 {
            assert(spans.filter(keep) == front.push(last));
            lemma_tiles_push(front, from, last.0, last);
            assert forall|i: int| 0 <= i < front.push(last).len() implies (#[trigger] front.push(
                last,
            )[i]).0 < front.push(last)[i].1 by {
                if i < front.len() {
                    assert(front.push(last)[i] == front[i]);
                }
            }
        } else {
            assert(spans.filter(keep) == front);
        }
    }
}

/// The pieces addressed by a tiling of `[from, to)` make up that range of the text.
pub proof fn lemma_tiles_joined(text: Seq<u8>, spans: Seq<(int, int)>, from: int, to: int)
    requires
        tiles(spans, from, to),
        0 <= from,
        to <= text.len(),
    ensures
        joined(text, spans) == text.subrange(from, to),
    decreases spans.len(),
{
    lemma_tiles_bounds(spans, from, to);
    if spans.len() == 0 {
        assert(joined(text, spans) =~= text.subrange(from, to));
    } else {
        let last = spans.last();
        lemma_tiles_bounds(spans.drop_last(), from, last.0);
        lemma_tiles_joined(text, spans.drop_last(), from, last.0);
        assert(text.subrange(from, last.0) + text.subrange(last.0, last.1) =~= text.subrange(
            from,
            to,
        ));
    }
}

/// The pieces addressed by a partition of a text, one after the other, are the text.
pub proof fn lemma_partition_joined(text: Seq<u8>, spans: Seq<(int, int)>)
    requires
        is_partition(spans, text.len() as int),
    ensures
        joined(text, spans) == text,
{
    lemma_tiles_joined(text, spans, 0, text.len() as int);
    assert(text.subrange(0, text.len() as int) =~= text);
}

/// The range from `from` to `to` as one span.
pub fn whole_span(from: usize, to: usize) -> (spans: Vec<Span>)
    requires
        from <= to,
    ensures
        span_ints(spans@) == opaque_span(from as int, to - from),
        tiles(span_ints(spans@), from as int, to as int),
{
    let mut spans: Vec<Span> = Vec::new();
    spans.push((from, to));
    proof {
        assert(span_ints(spans@) =~= opaque_span(from as int, to - from));
        lemma_opaque_tiles(from as int, to - from);
    }
    spans
}

/// Removes the spans of length zero, or that run backwards, and keeps the
/// others in their order.
pub fn drop_empty(spans: &Vec<Span>) -> (kept: Vec<Span>)
    ensures
        span_ints(kept@) == keep_nonempty(span_ints(spans@)),
{
    let mut kept: Vec<Span> = Vec::new();
    let mut i: usize = 0;
    proof {
        reveal(Seq::filter);
        assert(span_ints(spans@).take(0) =~= Seq::empty());
        assert(span_ints(kept@) =~= Seq::empty());
    }
    while i < spans.len()
        invariant
            i <= spans.len(),
            span_ints(kept@) == keep_nonempty(span_ints(spans@).take(i as int)),
        decreases spans.len() - i,
    {
        let s = spans[i];
        proof {
            let all = span_ints(spans@);
            let item = (s.0 as int, s.1 as int);
            assert(all.take(i as int + 1) =~= all.take(i as int).push(item));
            all.take(i as int).lemma_filter_push(item, |s: (int, int)| s.0 < s.1);
            assert(span_ints(kept@.push(s)) =~= span_ints(kept@).push(item));
        }
        if s.0 < s.1 {
            kept.push(s);
        }
        i += 1;
    }
    proof {
        assert(span_ints(spans@).take(i as int) =~= span_ints(spans@));
    }
    kept
}

} // verus!
