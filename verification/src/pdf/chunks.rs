//! Gathering sentences into chunks that overlap.

use crate::pdf::normal::cleaned;
use crate::pdf::sentences::{
    lemma_sentences_well_formed, sentences_of, stretches_of, well_formed_sentence,
};
use crate::pdf::ChunkLimits;
use crate::text::{
    contains, ends_with, has_infix_str, has_suffix_str, joined, lemma_joined_nonempty,
    lemma_joined_prepend, lemma_joined_push, lowercase, push_all, to_lowercase, views_of,
};
use vstd::prelude::*;

verus! {

/// Whether a sentence, given in lower case, is a good place to end a
/// chunk: it draws a conclusion or states a result, or at least it neither
/// names a step of a sequence nor ends with a colon.
pub open spec fn good_boundary_text(lower: Seq<char>) -> bool {
    ||| contains(lower, "therefore"@)
    ||| contains(lower, "thus"@)
    ||| contains(lower, "finally"@)
    ||| contains(lower, "in conclusion"@)
    ||| ends_with(lower, "wins."@)
    ||| ends_with(lower, "wins!"@)
    ||| ends_with(lower, "complete."@)
    ||| ends_with(lower, "finished."@)
    ||| !(contains(lower, "first"@) || contains(lower, "then"@) || contains(lower, "next"@)
        || contains(lower, "after"@) || contains(lower, "before"@) || ends_with(lower, ":"@))
}

/// Whether `sentence` is a good place to end a chunk.
pub open spec fn good_boundary(sentence: Seq<char>) -> bool {
    good_boundary_text(lowercase(sentence))
}

/// Whether a sentence, given in lower case, is a good place to end a chunk.
pub fn is_good_boundary_text(lower: &[char]) -> (r: bool)
    ensures
        r == good_boundary_text(lower@),
{
    if has_infix_str(lower, "therefore") || has_infix_str(lower, "thus") || has_infix_str(
        lower,
        "finally",
    ) || has_infix_str(lower, "in conclusion") {
        return true;
    }
    if has_suffix_str(lower, "wins.") || has_suffix_str(lower, "wins!") || has_suffix_str(
        lower,
        "complete.",
    ) || has_suffix_str(lower, "finished.") {
        return true;
    }
    !(has_infix_str(lower, "first") || has_infix_str(lower, "then") || has_infix_str(
        lower,
        "next",
    ) || has_infix_str(lower, "after") || has_infix_str(lower, "before") || has_suffix_str(
        lower,
        ":",
    ))
}

/// Whether `sentence` is a good place to end a chunk.
pub fn is_good_boundary(sentence: &[char]) -> (r: bool)
    ensures
        r == good_boundary(sentence@),
{
    let lower = to_lowercase(sentence);
    is_good_boundary_text(lower.as_slice())
}

/// Going back from sentence `k`: the first sentence of the overlap, where
/// the sentences from `k` up to `end` have been taken already. A sentence
/// is taken as long as the joined text stays within `limits.overlap`.
pub open spec fn overlap_start_from(
    limits: ChunkLimits,
    s: Seq<Seq<char>>,
    fresh: int,
    k: int,
    end: int,
) -> int
    decreases k - fresh,
{
    if 0 <= fresh < k <= end <= s.len() && joined(s.subrange(k - 1, end)).len()
        <= limits.overlap as int {
        overlap_start_from(limits, s, fresh, k - 1, end)
    } else {
        k
    }
}

/// The index of the first sentence that a chunk repeats, where the chunk
/// before it has added the sentences `s[fresh..end]`: the longest run at the
/// end of them whose joined text has at most `limits.overlap` characters.
pub open spec fn overlap_start(
    limits: ChunkLimits,
    s: Seq<Seq<char>>,
    fresh: int,
    end: int,
) -> int {
    overlap_start_from(limits, s, fresh, end, end)
}

pub proof fn lemma_overlap_start_from(
    limits: ChunkLimits,
    s: Seq<Seq<char>>,
    fresh: int,
    k: int,
    end: int,
)
    requires
        0 <= fresh <= k <= end <= s.len(),
    ensures
        fresh <= overlap_start_from(limits, s, fresh, k, end) <= k,
    decreases k - fresh,
{
    if fresh < k && joined(s.subrange(k - 1, end)).len() <= limits.overlap as int {
        lemma_overlap_start_from(limits, s, fresh, k - 1, end);
    }
}

/// The sentences that make up one chunk: `start..end` of the sentence
/// list, of which `start..fresh` repeat the end of the chunk before.
pub struct Span {
    pub start: int,
    pub fresh: int,
    pub end: int,
}

/// The spans of the chunks that are still to come, where the chunk under
/// way holds the sentences `start..i` and has added `fresh..i` itself.
///
/// Before sentence `i` is added, the chunk is closed if it is not empty,
/// would grow beyond `limits.max` and has `limits.min` characters.
/// After it is added, the chunk is closed if it has `limits.target` characters
/// and the sentence is a good place to stop. A chunk that follows a closed
/// one starts with the overlap. At the end, what is left is a chunk if it has
/// `limits.min` characters.
pub open spec fn spans_from(
    limits: ChunkLimits,
    s: Seq<Seq<char>>,
    start: int,
    fresh: int,
    i: int,
) -> Seq<Span>
    decreases s.len() - i,
{
    if !(0 <= start <= fresh <= i <= s.len()) {
        Seq::empty()
    } else if i == s.len() {
        if 0 < joined(s.subrange(start, i)).len() && joined(s.subrange(start, i)).len()
            >= limits.min as int {
            seq![Span { start, fresh, end: i }]
        } else {
            Seq::empty()
        }
    } else {
        let held = joined(s.subrange(start, i)).len();
        let full = held > 0 && held + s[i].len() + 1 > limits.max as int && held
            >= limits.min as int;
        let closed = if full {
            seq![Span { start, fresh, end: i }]
        } else {
            Seq::empty()
        };
        let start1 = if full {
            overlap_start(limits, s, fresh, i)
        } else {
            start
        };
        let fresh1 = if full {
            i
        } else {
            fresh
        };
        proof {
            lemma_overlap_start_from(limits, s, fresh, i, i);
            lemma_overlap_start_from(limits, s, fresh1, i + 1, i + 1);
        }
        if joined(s.subrange(start1, i + 1)).len() >= limits.target as int && good_boundary(s[i]) {
            closed + seq![Span { start: start1, fresh: fresh1, end: i + 1 }] + spans_from(
                limits,
                s,
                overlap_start(limits, s, fresh1, i + 1),
                i + 1,
                i + 1,
            )
        } else {
            closed + spans_from(limits, s, start1, fresh1, i + 1)
        }
    }
}

/// The spans of the chunks made of the sentences `s`.
pub open spec fn spans_of(limits: ChunkLimits, s: Seq<Seq<char>>) -> Seq<Span> {
    spans_from(limits, s, 0, 0, 0)
}

/// The text of a chunk: its sentences joined by single spaces.
pub open spec fn span_text(s: Seq<Seq<char>>, span: Span) -> Seq<char> {
    joined(s.subrange(span.start, span.end))
}

/// The texts of the chunks with the given spans.
pub open spec fn span_texts(s: Seq<Seq<char>>, spans: Seq<Span>) -> Seq<Seq<char>> {
    Seq::new(spans.len(), |k: int| span_text(s, spans[k]))
}

/// The chunks made of the sentences `s`.
pub open spec fn chunks_of(limits: ChunkLimits, s: Seq<Seq<char>>) -> Seq<Seq<char>> {
    span_texts(s, spans_of(limits, s))
}

/// The chunks of a text: those of the sentences of its normal form.
pub open spec fn chunks_of_text(limits: ChunkLimits, text: Seq<char>) -> Seq<Seq<char>> {
    chunks_of(limits, sentences_of(limits, cleaned(text)))
}

// Laws of the chunks

/// The overlap has at most `limits.overlap` characters.
pub proof fn lemma_overlap_is_short(
    limits: ChunkLimits,
    s: Seq<Seq<char>>,
    fresh: int,
    k: int,
    end: int,
)
    requires
        0 <= fresh <= k <= end <= s.len(),
        joined(s.subrange(k, end)).len() <= limits.overlap,
    ensures
        joined(s.subrange(overlap_start_from(limits, s, fresh, k, end), end)).len() <= limits.overlap,
        fresh <= overlap_start_from(limits, s, fresh, k, end) <= k,
    decreases k - fresh,
{
    if fresh < k && joined(s.subrange(k - 1, end)).len() <= limits.overlap as int {
        lemma_overlap_is_short(limits, s, fresh, k - 1, end);
    }
}

/// The overlap that follows the sentences `fresh..end` is made of sentences
/// among them and has at most `limits.overlap` characters.
pub proof fn lemma_overlap_start(limits: ChunkLimits, s: Seq<Seq<char>>, fresh: int, end: int)
    requires
        0 <= fresh <= end <= s.len(),
    ensures
        fresh <= overlap_start(limits, s, fresh, end) <= end,
        joined(s.subrange(overlap_start(limits, s, fresh, end), end)).len() <= limits.overlap,
{
    assert(s.subrange(end, end) =~= Seq::<Seq<char>>::empty());
    lemma_overlap_is_short(limits, s, fresh, end, end);
}

/// The most characters of a sentence for which every chunk stays within
/// `limits.max`: a chunk may begin with a full overlap and a space.
pub open spec fn fitting_sentence_len(limits: ChunkLimits) -> int {
    limits.max as int - limits.overlap as int - 1
}

/// Whether no sentence is empty.
pub open spec fn no_empty_sentence(s: Seq<Seq<char>>) -> bool {
    forall|k: int| 0 <= k < s.len() ==> (#[trigger] s[k]).len() > 0
}

/// Whether every sentence is short enough to fit a chunk after an overlap.
pub open spec fn all_fitting(limits: ChunkLimits, s: Seq<Seq<char>>) -> bool {
    forall|k: int| 0 <= k < s.len() ==> (#[trigger] s[k]).len() <= fitting_sentence_len(limits)
}

/// Whether every text has at least `low` characters.
pub open spec fn all_at_least(texts: Seq<Seq<char>>, low: int) -> bool {
    forall|k: int| 0 <= k < texts.len() ==> (#[trigger] texts[k]).len() >= low
}

/// Whether every text has at most `high` characters.
pub open spec fn all_at_most(texts: Seq<Seq<char>>, high: int) -> bool {
    forall|k: int| 0 <= k < texts.len() ==> (#[trigger] texts[k]).len() <= high
}

proof fn lemma_span_texts_concat(s: Seq<Seq<char>>, a: Seq<Span>, b: Seq<Span>)
    ensures
        span_texts(s, a + b) == span_texts(s, a) + span_texts(s, b),
{
    assert(span_texts(s, a + b) =~= span_texts(s, a) + span_texts(s, b));
}

proof fn lemma_bounds_concat(a: Seq<Seq<char>>, b: Seq<Seq<char>>, low: int, high: int)
    ensures
        all_at_least(a, low) && all_at_least(b, low) ==> all_at_least(a + b, low),
        all_at_most(a, high) && all_at_most(b, high) ==> all_at_most(a + b, high),
{
    if all_at_least(a, low) && all_at_least(b, low) {
        assert forall|k: int| 0 <= k < (a + b).len() implies (#[trigger] (a + b)[k]).len() >= low by {
            if k < a.len() {
                assert((a + b)[k] == a[k]);
            } else {
                assert((a + b)[k] == b[k - a.len()]);
            }
        }
    }
    if all_at_most(a, high) && all_at_most(b, high) {
        assert forall|k: int| 0 <= k < (a + b).len() implies (#[trigger] (a + b)[k]).len() <= high by {
            if k < a.len() {
                assert((a + b)[k] == a[k]);
            } else {
                assert((a + b)[k] == b[k - a.len()]);
            }
        }
    }
}

/// Every chunk that is still to come has at least `limits.min`
/// characters.
pub proof fn lemma_chunks_not_short(
    limits: ChunkLimits,
    s: Seq<Seq<char>>,
    start: int,
    fresh: int,
    i: int,
)
    requires
        limits.min <= limits.target,
    ensures
        all_at_least(span_texts(s, spans_from(limits, s, start, fresh, i)), limits.min as int),
    decreases s.len() - i,
{
    let low = limits.min as int;
    if !(0 <= start <= fresh <= i <= s.len()) {
    } else if i == s.len() {
    } else {
        let held = joined(s.subrange(start, i)).len();
        let full = held > 0 && held + s[i].len() + 1 > limits.max as int && held
            >= limits.min as int;
        let closed = if full {
            seq![Span { start, fresh, end: i }]
        } else {
            Seq::empty()
        };
        let start1 = if full {
            overlap_start(limits, s, fresh, i)
        } else {
            start
        };
        let fresh1 = if full {
            i
        } else {
            fresh
        };
        lemma_overlap_start_from(limits, s, fresh, i, i);
        lemma_overlap_start_from(limits, s, fresh1, i + 1, i + 1);
        assert(all_at_least(span_texts(s, closed), low));
        if joined(s.subrange(start1, i + 1)).len() >= limits.target as int && good_boundary(s[i]) {
            let span = Span { start: start1, fresh: fresh1, end: i + 1 };
            let rest = spans_from(limits, s, overlap_start(limits, s, fresh1, i + 1), i + 1, i + 1);
            lemma_chunks_not_short(limits, s, overlap_start(limits, s, fresh1, i + 1), i + 1, i + 1);
            assert(all_at_least(span_texts(s, seq![span]), low));
            lemma_span_texts_concat(s, closed, seq![span]);
            lemma_span_texts_concat(s, closed + seq![span], rest);
            lemma_bounds_concat(span_texts(s, closed), span_texts(s, seq![span]), low, 0);
            lemma_bounds_concat(span_texts(s, closed + seq![span]), span_texts(s, rest), low, 0);
        } else {
            let rest = spans_from(limits, s, start1, fresh1, i + 1);
            lemma_chunks_not_short(limits, s, start1, fresh1, i + 1);
            lemma_span_texts_concat(s, closed, rest);
            lemma_bounds_concat(span_texts(s, closed), span_texts(s, rest), low, 0);
        }
    }
}

/// Where no sentence is empty or longer than `fitting_sentence_len(limits)`, and
/// the chunk under way has at most `limits.max` characters, every chunk
/// that is still to come has at most `limits.max` characters.
pub proof fn lemma_chunks_not_long(
    limits: ChunkLimits,
    s: Seq<Seq<char>>,
    start: int,
    fresh: int,
    i: int,
)
    requires
        no_empty_sentence(s),
        all_fitting(limits, s),
        0 <= start <= fresh <= i <= s.len(),
        limits.min <= limits.overlap + 1,
        limits.overlap <= limits.max,
        joined(s.subrange(start, i)).len() <= limits.max,
    ensures
        all_at_most(span_texts(s, spans_from(limits, s, start, fresh, i)), limits.max as int),
    decreases s.len() - i,
{
    let high = limits.max as int;
    if i == s.len() {
    } else {
        let held = joined(s.subrange(start, i)).len();
        let full = held > 0 && held + s[i].len() + 1 > limits.max as int && held
            >= limits.min as int;
        let closed = if full {
            seq![Span { start, fresh, end: i }]
        } else {
            Seq::empty()
        };
        let start1 = if full {
            overlap_start(limits, s, fresh, i)
        } else {
            start
        };
        let fresh1 = if full {
            i
        } else {
            fresh
        };
        lemma_overlap_start(limits, s, fresh, i);
        lemma_overlap_start(limits, s, fresh1, i + 1);
        assert(all_at_most(span_texts(s, closed), high));
        let part = s.subrange(start1, i);
        lemma_joined_push(part, s[i]);
        assert(s.subrange(start1, i + 1) =~= part.push(s[i]));
        assert(s[i].len() <= fitting_sentence_len(limits));
        assert(joined(s.subrange(start1, i + 1)).len() <= high);
        if joined(s.subrange(start1, i + 1)).len() >= limits.target as int && good_boundary(s[i]) {
            let span = Span { start: start1, fresh: fresh1, end: i + 1 };
            let next = overlap_start(limits, s, fresh1, i + 1);
            let rest = spans_from(limits, s, next, i + 1, i + 1);
            lemma_chunks_not_long(limits, s, next, i + 1, i + 1);
            assert(all_at_most(span_texts(s, seq![span]), high));
            lemma_span_texts_concat(s, closed, seq![span]);
            lemma_span_texts_concat(s, closed + seq![span], rest);
            lemma_bounds_concat(span_texts(s, closed), span_texts(s, seq![span]), 0, high);
            lemma_bounds_concat(span_texts(s, closed + seq![span]), span_texts(s, rest), 0, high);
        } else {
            let rest = spans_from(limits, s, start1, fresh1, i + 1);
            lemma_chunks_not_long(limits, s, start1, fresh1, i + 1);
            lemma_span_texts_concat(s, closed, rest);
            lemma_bounds_concat(span_texts(s, closed), span_texts(s, rest), 0, high);
        }
    }
}

/// No chunk that is still to come is empty, where no sentence is.
pub proof fn lemma_chunks_not_empty(
    limits: ChunkLimits,
    s: Seq<Seq<char>>,
    start: int,
    fresh: int,
    i: int,
)
    requires
        no_empty_sentence(s),
    ensures
        all_at_least(span_texts(s, spans_from(limits, s, start, fresh, i)), 1),
    decreases s.len() - i,
{
    if !(0 <= start <= fresh <= i <= s.len()) {
    } else if i == s.len() {
    } else {
        let held = joined(s.subrange(start, i)).len();
        let full = held > 0 && held + s[i].len() + 1 > limits.max as int && held
            >= limits.min as int;
        let closed = if full {
            seq![Span { start, fresh, end: i }]
        } else {
            Seq::empty()
        };
        let start1 = if full {
            overlap_start(limits, s, fresh, i)
        } else {
            start
        };
        let fresh1 = if full {
            i
        } else {
            fresh
        };
        lemma_overlap_start_from(limits, s, fresh, i, i);
        lemma_overlap_start_from(limits, s, fresh1, i + 1, i + 1);
        assert(all_at_least(span_texts(s, closed), 1));
        if joined(s.subrange(start1, i + 1)).len() >= limits.target as int && good_boundary(s[i]) {
            let span = Span { start: start1, fresh: fresh1, end: i + 1 };
            let next = overlap_start(limits, s, fresh1, i + 1);
            let rest = spans_from(limits, s, next, i + 1, i + 1);
            lemma_chunks_not_empty(limits, s, next, i + 1, i + 1);
            let part = s.subrange(start1, i + 1);
            assert forall|k: int| 0 <= k < part.len() implies (#[trigger] part[k]).len() > 0 by {
                assert(part[k] == s[start1 + k]);
            }
            lemma_joined_nonempty(part);
            assert(all_at_least(span_texts(s, seq![span]), 1));
            lemma_span_texts_concat(s, closed, seq![span]);
            lemma_span_texts_concat(s, closed + seq![span], rest);
            lemma_bounds_concat(span_texts(s, closed), span_texts(s, seq![span]), 1, 0);
            lemma_bounds_concat(span_texts(s, closed + seq![span]), span_texts(s, rest), 1, 0);
        } else {
            let rest = spans_from(limits, s, start1, fresh1, i + 1);
            lemma_chunks_not_empty(limits, s, start1, fresh1, i + 1);
            lemma_span_texts_concat(s, closed, rest);
            lemma_bounds_concat(span_texts(s, closed), span_texts(s, rest), 1, 0);
        }
    }
}

/// The sizes of the chunks of a text. No chunk is empty. Where the sizes
/// that steer the chunker fit each other, no chunk has fewer than
/// `limits.min` characters; and where, moreover, no sentence of the text has
/// more than `fitting_sentence_len(limits)` characters, no chunk has more
/// than `limits.max`.
pub proof fn lemma_chunk_lengths(limits: ChunkLimits, text: Seq<char>)
    ensures
        all_at_least(chunks_of_text(limits, text), 1),
        limits.fit() ==> all_at_least(chunks_of_text(limits, text), limits.min as int),
        limits.fit() && all_fitting(limits, sentences_of(limits, cleaned(text))) ==> all_at_most(
            chunks_of_text(limits, text),
            limits.max as int,
        ),
{
    let s = sentences_of(limits, cleaned(text));
    lemma_sentences_well_formed(limits, stretches_of(limits, cleaned(text)));
    assert(no_empty_sentence(s)) by {
        assert forall|k: int| 0 <= k < s.len() implies (#[trigger] s[k]).len() > 0 by {
            assert(well_formed_sentence(limits, s[k]));
        }
    }
    lemma_chunks_not_empty(limits, s, 0, 0, 0);
    if limits.fit() {
        lemma_chunks_not_short(limits, s, 0, 0, 0);
        if all_fitting(limits, s) {
            assert(s.subrange(0, 0) =~= Seq::<Seq<char>>::empty());
            lemma_chunks_not_long(limits, s, 0, 0, 0);
        }
    }
}

/// Whether the spans follow each other from sentence `fresh` on: each one
/// adds sentences from where the one before stopped, and repeats none from
/// before `least`, nor from before the sentences that the one before added.
pub open spec fn tiled(s: Seq<Seq<char>>, spans: Seq<Span>, fresh: int, least: int) -> bool
    decreases spans.len(),
{
    if spans.len() == 0 {
        true
    } else {
        &&& spans[0].fresh == fresh
        &&& 0 <= least <= spans[0].start <= spans[0].fresh <= spans[0].end <= s.len()
        &&& tiled(s, spans.drop_first(), spans[0].end, spans[0].fresh)
    }
}

/// The sentence up to which the spans reach, from `fresh` on.
pub open spec fn covered_end(spans: Seq<Span>, fresh: int) -> int {
    if spans.len() == 0 {
        fresh
    } else {
        spans.last().end
    }
}

proof fn lemma_joined_tail_shorter(s: Seq<Seq<char>>, a: int, b: int)
    requires
        0 <= a <= b <= s.len(),
    ensures
        joined(s.subrange(b, s.len() as int)).len() <= joined(s.subrange(a, s.len() as int)).len(),
    decreases b - a,
{
    if a < b {
        lemma_joined_tail_shorter(s, a + 1, b);
        lemma_joined_prepend(s[a], s.subrange(a + 1, s.len() as int));
        assert(s.subrange(a, s.len() as int) =~= seq![s[a]] + s.subrange(a + 1, s.len() as int));
    }
}

proof fn lemma_tiled_prepend(s: Seq<Seq<char>>, span: Span, rest: Seq<Span>, least: int)
    requires
        0 <= least <= span.start <= span.fresh <= span.end <= s.len(),
        tiled(s, rest, span.end, span.fresh),
    ensures
        tiled(s, seq![span] + rest, span.fresh, least),
        covered_end(seq![span] + rest, span.fresh) == covered_end(rest, span.end),
{
    let all = seq![span] + rest;
    assert(all.drop_first() =~= rest);
    if rest.len() > 0 {
        assert(all.last() == rest.last());
    }
}

proof fn lemma_tiled_weaken(s: Seq<Seq<char>>, spans: Seq<Span>, fresh: int, least: int, lower: int)
    requires
        tiled(s, spans, fresh, least),
        0 <= lower <= least,
    ensures
        tiled(s, spans, fresh, lower),
{
}

/// From any state of the chunker on, the spans still to come follow each
/// other from sentence `fresh` on, the first of them begins at `start` and
/// ends at `i` or later, and the sentences after the last of them, joined,
/// are shorter than `limits.min`.
pub proof fn lemma_spans_tiled(
    limits: ChunkLimits,
    s: Seq<Seq<char>>,
    start: int,
    fresh: int,
    i: int,
)
    requires
        0 <= start <= fresh <= i <= s.len(),
    ensures
        tiled(s, spans_from(limits, s, start, fresh, i), fresh, start),
        spans_from(limits, s, start, fresh, i).len() > 0 ==> spans_from(limits, s, start, fresh, i)[0].start
            == start && spans_from(limits, s, start, fresh, i)[0].end >= i,
        fresh <= covered_end(spans_from(limits, s, start, fresh, i), fresh) <= s.len(),
        joined(
            s.subrange(covered_end(spans_from(limits, s, start, fresh, i), fresh), s.len() as int),
        ).len() < limits.min || joined(
            s.subrange(covered_end(spans_from(limits, s, start, fresh, i), fresh), s.len() as int),
        ).len() == 0,
    decreases s.len() - i,
{
    let n = s.len() as int;
    if i == s.len() {
        if 0 < joined(s.subrange(start, i)).len() && joined(s.subrange(start, i)).len()
            >= limits.min as int {
            let span = Span { start, fresh, end: i };
            lemma_tiled_prepend(s, span, Seq::empty(), start);
            assert(seq![span] + Seq::<Span>::empty() =~= seq![span]);
            assert(s.subrange(n, n) =~= Seq::<Seq<char>>::empty());
        } else {
            lemma_joined_tail_shorter(s, start, fresh);
        }
    } else {
        let held = joined(s.subrange(start, i)).len();
        let full = held > 0 && held + s[i].len() + 1 > limits.max as int && held
            >= limits.min as int;
        let start1 = if full {
            overlap_start(limits, s, fresh, i)
        } else {
            start
        };
        let fresh1 = if full {
            i
        } else {
            fresh
        };
        lemma_overlap_start(limits, s, fresh, i);
        lemma_overlap_start(limits, s, fresh1, i + 1);
        let first = Span { start, fresh, end: i };
        if joined(s.subrange(start1, i + 1)).len() >= limits.target as int && good_boundary(s[i]) {
            let span = Span { start: start1, fresh: fresh1, end: i + 1 };
            let next = overlap_start(limits, s, fresh1, i + 1);
            let rest = spans_from(limits, s, next, i + 1, i + 1);
            lemma_spans_tiled(limits, s, next, i + 1, i + 1);
            lemma_tiled_weaken(s, rest, i + 1, next, fresh1);
            lemma_tiled_prepend(s, span, rest, if full {
                fresh
            } else {
                start
            });
            if full {
                lemma_tiled_prepend(s, first, seq![span] + rest, start);
                assert(seq![first] + (seq![span] + rest) =~= seq![first] + seq![span] + rest);
            } else {
                assert(Seq::<Span>::empty() + seq![span] + rest =~= seq![span] + rest);
            }
        } else {
            let rest = spans_from(limits, s, start1, fresh1, i + 1);
            lemma_spans_tiled(limits, s, start1, fresh1, i + 1);
            if full {
                lemma_tiled_weaken(s, rest, i, start1, fresh);
                lemma_tiled_prepend(s, first, rest, start);
            } else {
                assert(Seq::<Span>::empty() + rest =~= rest);
            }
        }
    }
}

/// Where the spans follow each other, span `k` adds sentences from where
/// span `k - 1` stopped and repeats none from before those that it added.
pub proof fn lemma_tiled_at(s: Seq<Seq<char>>, spans: Seq<Span>, fresh: int, least: int, k: int)
    requires
        tiled(s, spans, fresh, least),
        0 <= k < spans.len(),
    ensures
        0 <= spans[k].start <= spans[k].fresh <= spans[k].end <= s.len(),
        k == 0 ==> spans[k].fresh == fresh && spans[k].start >= least,
        k > 0 ==> spans[k].fresh == spans[k - 1].end && spans[k].start >= spans[k - 1].fresh,
    decreases k,
{
    if k > 0 {
        let rest = spans.drop_first();
        lemma_tiled_at(s, rest, spans[0].end, spans[0].fresh, k - 1);
        assert(rest[k - 1] == spans[k]);
        if k > 1 {
            assert(rest[k - 2] == spans[k - 1]);
        }
    }
}

/// Whether each span but the first begins where the overlap begins that
/// follows the span before it.
pub open spec fn overlaps_kept(limits: ChunkLimits, s: Seq<Seq<char>>, spans: Seq<Span>) -> bool
    decreases spans.len(),
{
    spans.len() <= 1 || (spans[1].start == overlap_start(limits, s, spans[0].fresh, spans[0].end)
        && overlaps_kept(limits, s, spans.drop_first()))
}

proof fn lemma_overlaps_prepend(limits: ChunkLimits, s: Seq<Seq<char>>, span: Span, rest: Seq<Span>)
    requires
        overlaps_kept(limits, s, rest),
        rest.len() > 0 ==> rest[0].start == overlap_start(limits, s, span.fresh, span.end),
    ensures
        overlaps_kept(limits, s, seq![span] + rest),
{
    let all = seq![span] + rest;
    assert(all.drop_first() =~= rest);
    if rest.len() > 0 {
        assert(all[1] == rest[0]);
    }
}

/// From any state of the chunker on, each span still to come but the first
/// begins where the overlap begins that follows the span before it.
pub proof fn lemma_spans_overlap(
    limits: ChunkLimits,
    s: Seq<Seq<char>>,
    start: int,
    fresh: int,
    i: int,
)
    requires
        0 <= start <= fresh <= i <= s.len(),
    ensures
        overlaps_kept(limits, s, spans_from(limits, s, start, fresh, i)),
    decreases s.len() - i,
{
    if i == s.len() {
    } else {
        let held = joined(s.subrange(start, i)).len();
        let full = held > 0 && held + s[i].len() + 1 > limits.max as int && held
            >= limits.min as int;
        let start1 = if full {
            overlap_start(limits, s, fresh, i)
        } else {
            start
        };
        let fresh1 = if full {
            i
        } else {
            fresh
        };
        lemma_overlap_start(limits, s, fresh, i);
        lemma_overlap_start(limits, s, fresh1, i + 1);
        let first = Span { start, fresh, end: i };
        if joined(s.subrange(start1, i + 1)).len() >= limits.target as int && good_boundary(s[i]) {
            let span = Span { start: start1, fresh: fresh1, end: i + 1 };
            let next = overlap_start(limits, s, fresh1, i + 1);
            let rest = spans_from(limits, s, next, i + 1, i + 1);
            lemma_spans_overlap(limits, s, next, i + 1, i + 1);
            lemma_spans_tiled(limits, s, next, i + 1, i + 1);
            lemma_overlaps_prepend(limits, s, span, rest);
            if full {
                lemma_overlaps_prepend(limits, s, first, seq![span] + rest);
                assert(seq![first] + (seq![span] + rest) =~= seq![first] + seq![span] + rest);
            } else {
                assert(Seq::<Span>::empty() + seq![span] + rest =~= seq![span] + rest);
            }
        } else {
            let rest = spans_from(limits, s, start1, fresh1, i + 1);
            lemma_spans_overlap(limits, s, start1, fresh1, i + 1);
            lemma_spans_tiled(limits, s, start1, fresh1, i + 1);
            if full {
                lemma_overlaps_prepend(limits, s, first, rest);
            } else {
                assert(Seq::<Span>::empty() + rest =~= rest);
            }
        }
    }
}

/// Where the overlaps are kept, span `k` begins where the overlap begins
/// that follows span `k - 1`.
pub proof fn lemma_overlaps_at(limits: ChunkLimits, s: Seq<Seq<char>>, spans: Seq<Span>, k: int)
    requires
        overlaps_kept(limits, s, spans),
        0 < k < spans.len(),
    ensures
        spans[k].start == overlap_start(limits, s, spans[k - 1].fresh, spans[k - 1].end),
    decreases k,
{
    if k > 1 {
        let rest = spans.drop_first();
        lemma_overlaps_at(limits, s, rest, k - 1);
        assert(rest[k - 1] == spans[k]);
        assert(rest[k - 2] == spans[k - 1]);
    }
}

/// Whether the spans leave no gap among `count` sentences: each is a run
/// of sentences; the first begins with the first sentence; and every other
/// one adds sentences from where the one before it stopped, after repeating
/// at most sentences that the one before it added.
pub open spec fn spans_follow(spans: Seq<Span>, count: int) -> bool {
    &&& forall|k: int|
        0 <= k < spans.len() ==> 0 <= (#[trigger] spans[k]).start <= spans[k].fresh <= spans[k].end
            <= count
    &&& spans.len() > 0 ==> spans[0].start == 0 && spans[0].fresh == 0
    &&& forall|k: int|
        0 < k < spans.len() ==> (#[trigger] spans[k]).fresh == spans[k - 1].end && spans[k].start
            >= spans[k - 1].fresh
}

/// The chunks leave no gap among the sentences, and what follows the last
/// chunk is, joined, empty or shorter than `limits.min`. So the chunks,
/// without what they repeat, are the sentences in order, up to a short
/// rest.
pub proof fn lemma_chunks_cover(limits: ChunkLimits, s: Seq<Seq<char>>)
    ensures
        spans_follow(spans_of(limits, s), s.len() as int),
        joined(s.subrange(covered_end(spans_of(limits, s), 0), s.len() as int)).len() < limits.min
            || joined(s.subrange(covered_end(spans_of(limits, s), 0), s.len() as int)).len() == 0,
{
    let spans = spans_of(limits, s);
    lemma_spans_tiled(limits, s, 0, 0, 0);
    assert forall|k: int| 0 <= k < spans.len() implies 0 <= (#[trigger] spans[k]).start
        <= spans[k].fresh <= spans[k].end <= s.len() by {
        lemma_tiled_at(s, spans, 0, 0, k);
    }
    assert forall|k: int| 0 < k < spans.len() implies (#[trigger] spans[k]).fresh == spans[k
        - 1].end && spans[k].start >= spans[k - 1].fresh by {
        lemma_tiled_at(s, spans, 0, 0, k);
    }
}

/// The overlap that follows a chunk which has added the sentences
/// `fresh..end`, and the index of its first sentence.
pub fn overlap_text(
    limits: ChunkLimits,
    sentences: &Vec<Vec<char>>,
    fresh: usize,
    end: usize,
) -> (r: (Vec<char>, usize))
    requires
        fresh <= end <= sentences.len(),
    ensures
        r.1 == overlap_start(limits, views_of(sentences@), fresh as int, end as int),
        fresh <= r.1 <= end,
        r.0@ == joined(views_of(sentences@).subrange(r.1 as int, end as int)),
{
    let ghost s = views_of(sentences@);
    let mut k: usize = end;
    let mut length: usize = 0;
    assert(s.subrange(end as int, end as int) =~= Seq::<Seq<char>>::empty());
    let mut stop = false;
    while k > fresh && !stop
        invariant
            fresh <= k <= end <= sentences.len(),
            s == views_of(sentences@),
            length == joined(s.subrange(k as int, end as int)).len(),
            length <= limits.overlap,
            overlap_start_from(limits, s, fresh as int, k as int, end as int) == overlap_start(
                limits,
                s,
                fresh as int,
                end as int,
            ),
            stop ==> overlap_start_from(limits, s, fresh as int, k as int, end as int) == k,
        decreases k - fresh + if stop { 0int } else { 1int },
    {
        let n = sentences[k - 1].len();
        proof {
            lemma_joined_prepend(s[k - 1], s.subrange(k as int, end as int));
            assert(s.subrange(k - 1, end as int) =~= seq![s[k - 1]] + s.subrange(
                k as int,
                end as int,
            ));
        }
        if n > limits.overlap {
            stop = true;
        } else if k == end {
            length = n;
            k -= 1;
        } else if length >= limits.overlap - n {
            // with the space between them the two are too long
            stop = true;
        } else {
            length = n + 1 + length;
            k -= 1;
        }
    }
    proof {
        lemma_overlap_start_from(limits, s, fresh as int, k as int, end as int);
    }
    let mut out: Vec<char> = Vec::new();
    let mut m: usize = k;
    assert(s.subrange(k as int, k as int) =~= Seq::<Seq<char>>::empty());
    while m < end
        invariant
            k <= m <= end <= sentences.len(),
            s == views_of(sentences@),
            out@ == joined(s.subrange(k as int, m as int)),
        decreases end - m,
    {
        if m > k {
            out.push(' ');
        }
        push_all(&mut out, sentences[m].as_slice());
        proof {
            lemma_joined_push(s.subrange(k as int, m as int), s[m as int]);
            assert(s.subrange(k as int, m + 1) =~= s.subrange(k as int, m as int).push(
                s[m as int],
            ));
        }
        m += 1;
    }
    (out, k)
}

/// The chunks made of `sentences`, none of which is empty.
pub fn assemble_chunks(limits: ChunkLimits, sentences: &Vec<Vec<char>>) -> (out: Vec<Vec<char>>)
    requires
        forall|k: int| 0 <= k < sentences@.len() ==> (#[trigger] sentences@[k])@.len() > 0,
    ensures
        views_of(out@) == chunks_of(limits, views_of(sentences@)),
{
    let ghost s = views_of(sentences@);
    let n = sentences.len();
    let mut out: Vec<Vec<char>> = Vec::new();
    let mut current: Vec<char> = Vec::new();
    let ghost mut start: int = 0;
    let mut fresh: usize = 0;
    let mut i: usize = 0;
    assert(s.subrange(0, 0) =~= Seq::<Seq<char>>::empty());
    assert(views_of(out@) + span_texts(s, spans_from(limits, s, 0, 0, 0)) =~= chunks_of(limits, s));
    while i < n
        invariant
            n == sentences@.len(),
            s == views_of(sentences@),
            forall|k: int| 0 <= k < s.len() ==> (#[trigger] s[k]).len() > 0,
            0 <= start <= fresh <= i <= n,
            current@ == joined(s.subrange(start, i as int)),
            views_of(out@) + span_texts(s, spans_from(limits, s, start, fresh as int, i as int))
                == chunks_of(limits, s),
        decreases n - i,
    {
        let sentence = &sentences[i];
        let ghost spans0 = spans_from(limits, s, start, fresh as int, i as int);
        let ghost done0 = views_of(out@);
        let ghost start0 = start;
        let ghost fresh0 = fresh as int;
        let ghost held = current@.len();
        let would_exceed = current.len() > 0 && (sentence.len() >= limits.max || current.len()
            >= limits.max - sentence.len());
        let ghost full = held > 0 && held + s[i as int].len() + 1 > limits.max as int && held
            >= limits.min as int;
        assert(sentence@ == s[i as int]);
        assert(full == (would_exceed && current.len() >= limits.min));
        let ghost mut closed: Seq<Span> = Seq::empty();
        if would_exceed && current.len() >= limits.min {
            let (overlap, first) = overlap_text(limits, sentences, fresh, i);
            proof {
                closed = seq![Span { start, fresh: fresh as int, end: i as int }];
                assert(views_of(out@.push(current)) =~= done0 + span_texts(s, closed));
                start = first as int;
            }
            out.push(current);
            current = overlap;
            fresh = i;
        }
        assert(views_of(out@) =~= done0 + span_texts(s, closed));
        proof {
            lemma_joined_push(s.subrange(start, i as int), s[i as int]);
            assert(s.subrange(start, i + 1) =~= s.subrange(start, i as int).push(s[i as int]));
            let part = s.subrange(start, i as int);
            assert forall|k: int| 0 <= k < part.len() implies (#[trigger] part[k]).len() > 0 by {
                assert(part[k] == s[start + k]);
            }
            lemma_joined_nonempty(part);
        }
        if current.len() > 0 {
            current.push(' ');
        }
        push_all(&mut current, sentence.as_slice());
        assert(current@ =~= joined(s.subrange(start, i + 1)));
        let ghost start1 = start;
        let ghost fresh1 = fresh as int;
        if current.len() >= limits.target && is_good_boundary(sentence.as_slice()) {
            let (overlap, first) = overlap_text(limits, sentences, fresh, i + 1);
            let ghost span = Span { start, fresh: fresh as int, end: i + 1 };
            proof {
                let rest = spans_from(limits, s, first as int, i + 1, i + 1);
                assert(spans0 == closed + seq![span] + rest);
                assert(views_of(out@.push(current)) =~= done0 + span_texts(s, closed + seq![span]));
                assert(span_texts(s, spans0) =~= span_texts(s, closed + seq![span]) + span_texts(
                    s,
                    rest,
                ));
                assert(views_of(out@.push(current)) + span_texts(s, rest) =~= done0 + span_texts(
                    s,
                    spans0,
                ));
                start = first as int;
            }
            out.push(current);
            current = overlap;
            fresh = i + 1;
        } else {
            proof {
                let rest = spans_from(limits, s, start, fresh as int, i + 1);
                assert(spans0 == closed + rest);
                assert(span_texts(s, spans0) =~= span_texts(s, closed) + span_texts(s, rest));
                assert(views_of(out@) + span_texts(s, rest) =~= done0 + span_texts(s, spans0));
            }
        }
        i += 1;
    }
    let ghost last = spans_from(limits, s, start, fresh as int, n as int);
    let ghost done = views_of(out@);
    if current.len() > 0 && current.len() >= limits.min {
        assert(views_of(out@.push(current)) =~= done + span_texts(s, last));
        out.push(current);
    } else {
        assert(done + span_texts(s, last) =~= done);
    }
    out
}

} // verus!
