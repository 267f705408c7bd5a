//! Nothing of a text is lost between its chunks.

use crate::pdf::chunks::{
    covered_end, lemma_overlap_start, lemma_overlap_start_from, lemma_overlaps_at,
    lemma_spans_overlap, lemma_spans_tiled, lemma_tiled_at, overlap_start, span_text, spans_of,
    tiled, Span,
};
use crate::pdf::normal::cleaned;
use crate::pdf::sentences::{
    concatenated, kept_sentences, lemma_sentences_cover, lemma_visible_concat, sentences_of,
    stretches_of, visible,
};
use crate::pdf::ChunkLimits;
use crate::text::{
    ends_with, is_space, joined, lemma_joined_push, lemma_skip_spaces, lemma_skip_spaces_back,
    skip_spaces, skip_spaces_back, starts_with, trim,
};
use vstd::prelude::*;

verus! {

/// What a chunk adds to the chunks before it: its sentences without those
/// that it repeats, joined by single spaces.
pub open spec fn fresh_text(s: Seq<Seq<char>>, span: Span) -> Seq<char> {
    joined(s.subrange(span.fresh, span.end))
}

/// What each chunk adds, in the order of the chunks.
pub open spec fn fresh_texts(s: Seq<Seq<char>>, spans: Seq<Span>) -> Seq<Seq<char>> {
    Seq::new(spans.len(), |k: int| fresh_text(s, spans[k]))
}

/// Whether a stretch loses nothing that can be seen when it is made a
/// sentence: it is long enough to be kept, or it holds whitespace only, as
/// the stretch does that follows the last sentence of a text.
pub open spec fn keeps_its_text(limits: ChunkLimits, stretch: Seq<char>) -> bool {
    trim(stretch).len() > limits.short || trim(stretch).len() == 0
}

/// Whether no stretch with anything to see in it is dropped for being too
/// short.
pub open spec fn none_too_short(limits: ChunkLimits, stretches: Seq<Seq<char>>) -> bool {
    forall|k: int| 0 <= k < stretches.len() ==> keeps_its_text(limits, #[trigger] stretches[k])
}

/// Whether the chunks of a text take up all of it: no stretch of its normal
/// form with anything to see in it is dropped for being too short, and the
/// last chunk reaches its last sentence.
pub open spec fn nothing_dropped(limits: ChunkLimits, text: Seq<char>) -> bool {
    let clean = cleaned(text);
    let s = sentences_of(limits, clean);
    none_too_short(limits, stretches_of(limits, clean)) && covered_end(
        spans_of(limits, s),
        0,
    ) == s.len()
}

proof fn lemma_visible_spaces(s: Seq<char>)
    requires
        forall|k: int| 0 <= k < s.len() ==> is_space(#[trigger] s[k]),
    ensures
        visible(s) == Seq::<char>::empty(),
    decreases s.len(),
{
    if s.len() > 0 {
        let head = s.drop_last();
        assert forall|k: int| 0 <= k < head.len() implies is_space(#[trigger] head[k]) by {
            assert(head[k] == s[k]);
        }
        lemma_visible_spaces(head);
    }
}

proof fn lemma_visible_trim(s: Seq<char>)
    ensures
        visible(trim(s)) == visible(s),
{
    let n = s.len() as int;
    let a = skip_spaces(s, 0);
    let b = skip_spaces_back(s, n);
    lemma_skip_spaces(s, 0);
    lemma_skip_spaces_back(s, n);
    if a < b {
        let left = s.subrange(0, a);
        let mid = s.subrange(a, b);
        let right = s.subrange(b, n);
        assert forall|k: int| 0 <= k < left.len() implies is_space(#[trigger] left[k]) by {
            assert(left[k] == s[k]);
        }
        assert forall|k: int| 0 <= k < right.len() implies is_space(#[trigger] right[k]) by {
            assert(right[k] == s[b + k]);
        }
        lemma_visible_spaces(left);
        lemma_visible_spaces(right);
        lemma_visible_concat(left, mid);
        lemma_visible_concat(left + mid, right);
        assert(s =~= left + mid + right);
        assert(visible(s) =~= visible(mid));
    } else {
        // all of `s` is whitespace
        assert forall|k: int| 0 <= k < s.len() implies is_space(#[trigger] s[k]) by {
            if k < a {
            } else {
                assert(b <= k);
            }
        }
        lemma_visible_spaces(s);
        assert(visible(Seq::<char>::empty()) =~= Seq::<char>::empty());
    }
}

proof fn lemma_concatenated_push(parts: Seq<Seq<char>>, last: Seq<char>)
    ensures
        concatenated(parts.push(last)) == concatenated(parts) + last,
    decreases parts.len(),
{
    let all = parts.push(last);
    if parts.len() == 0 {
        assert(all.drop_first() =~= Seq::<Seq<char>>::empty());
        assert(concatenated(all.drop_first()) =~= Seq::<char>::empty());
        assert(concatenated(parts) =~= Seq::<char>::empty());
        assert(concatenated(all) =~= last);
        assert(concatenated(parts) + last =~= last);
    } else {
        lemma_concatenated_push(parts.drop_first(), last);
        assert(all.drop_first() =~= parts.drop_first().push(last));
        assert(all[0] == parts[0]);
        assert(concatenated(all) =~= concatenated(parts) + last);
    }
}

proof fn lemma_concatenated_split(s: Seq<Seq<char>>, a: int, b: int, c: int)
    requires
        0 <= a <= b <= c <= s.len(),
    ensures
        concatenated(s.subrange(a, c)) == concatenated(s.subrange(a, b)) + concatenated(
            s.subrange(b, c),
        ),
    decreases c - b,
{
    if b == c {
        assert(s.subrange(b, c) =~= Seq::<Seq<char>>::empty());
        assert(concatenated(s.subrange(b, c)) =~= Seq::<char>::empty());
        assert(concatenated(s.subrange(a, b)) + Seq::<char>::empty() =~= concatenated(
            s.subrange(a, b),
        ));
    } else {
        lemma_concatenated_split(s, a, b, c - 1);
        lemma_concatenated_push(s.subrange(a, c - 1), s[c - 1]);
        lemma_concatenated_push(s.subrange(b, c - 1), s[c - 1]);
        assert(s.subrange(a, c) =~= s.subrange(a, c - 1).push(s[c - 1]));
        assert(s.subrange(b, c) =~= s.subrange(b, c - 1).push(s[c - 1]));
        assert(concatenated(s.subrange(a, c)) =~= concatenated(s.subrange(a, b)) + concatenated(
            s.subrange(b, c),
        ));
    }
}

/// The spaces that join sentences cannot be seen.
proof fn lemma_visible_joined(parts: Seq<Seq<char>>)
    ensures
        visible(joined(parts)) == visible(concatenated(parts)),
    decreases parts.len(),
{
    if parts.len() == 0 {
        assert(concatenated(parts) =~= Seq::<char>::empty());
    } else if parts.len() == 1 {
        assert(parts =~= Seq::<Seq<char>>::empty().push(parts[0]));
        lemma_concatenated_push(Seq::empty(), parts[0]);
        assert(concatenated(Seq::<Seq<char>>::empty()) =~= Seq::<char>::empty());
        assert(concatenated(parts) =~= parts[0]);
    } else {
        let head = parts.drop_last();
        lemma_visible_joined(head);
        lemma_concatenated_push(head, parts.last());
        assert(parts =~= head.push(parts.last()));
        let space = seq![' '];
        assert forall|k: int| 0 <= k < space.len() implies is_space(#[trigger] space[k]) by {
            assert(space[k] == ' ');
        }
        lemma_visible_spaces(space);
        lemma_visible_concat(joined(head), space);
        lemma_visible_concat(joined(head) + space, parts.last());
        lemma_visible_concat(concatenated(head), parts.last());
        assert(visible(joined(parts)) =~= visible(concatenated(parts)));
    }
}

/// Where no stretch is dropped, the sentences hold what can be seen of the
/// stretches.
proof fn lemma_visible_kept(limits: ChunkLimits, stretches: Seq<Seq<char>>)
    requires
        none_too_short(limits, stretches),
    ensures
        visible(concatenated(kept_sentences(limits, stretches))) == visible(
            concatenated(stretches),
        ),
    decreases stretches.len(),
{
    if stretches.len() == 0 {
    } else {
        let first = stretches[0];
        let rest = stretches.drop_first();
        assert forall|k: int| 0 <= k < rest.len() implies keeps_its_text(
            limits,
            #[trigger] rest[k],
        ) by {
            assert(rest[k] == stretches[k + 1]);
        }
        lemma_visible_kept(limits, rest);
        assert(keeps_its_text(limits, first));
        let kept_rest = kept_sentences(limits, rest);
        let kept = kept_sentences(limits, stretches);
        lemma_visible_trim(first);
        lemma_visible_concat(first, concatenated(rest));
        if trim(first).len() > limits.short {
            assert(kept == seq![trim(first)] + kept_rest);
            assert(kept[0] == trim(first));
            assert(kept.drop_first() =~= kept_rest);
            lemma_visible_concat(trim(first), concatenated(kept_rest));
        } else {
            // nothing of `first` can be seen, and nothing is kept of it
            assert(kept =~= kept_rest);
            assert(trim(first) =~= Seq::<char>::empty());
            assert(visible(first) + visible(concatenated(rest)) =~= visible(concatenated(rest)));
        }
    }
}

/// What the chunks add, one after the other, is what can be seen of the
/// sentences that they reach.
proof fn lemma_visible_fresh(s: Seq<Seq<char>>, spans: Seq<Span>, fresh: int, least: int)
    requires
        tiled(s, spans, fresh, least),
        0 <= fresh <= s.len(),
    ensures
        fresh <= covered_end(spans, fresh) <= s.len(),
        visible(concatenated(fresh_texts(s, spans))) == visible(
            concatenated(s.subrange(fresh, covered_end(spans, fresh))),
        ),
    decreases spans.len(),
{
    if spans.len() == 0 {
        assert(s.subrange(fresh, fresh) =~= Seq::<Seq<char>>::empty());
        assert(fresh_texts(s, spans) =~= Seq::<Seq<char>>::empty());
    } else {
        let first = spans[0];
        let rest = spans.drop_first();
        lemma_visible_fresh(s, rest, first.end, first.fresh);
        let texts = fresh_texts(s, spans);
        assert(texts[0] == fresh_text(s, first));
        assert(texts.drop_first() =~= fresh_texts(s, rest));
        if rest.len() > 0 {
            assert(rest.last() == spans.last());
        }
        let covered = covered_end(spans, fresh);
        assert(covered == covered_end(rest, first.end));
        lemma_visible_joined(s.subrange(first.fresh, first.end));
        lemma_visible_concat(fresh_text(s, first), concatenated(fresh_texts(s, rest)));
        lemma_concatenated_split(s, fresh, first.end, covered);
        lemma_visible_concat(
            concatenated(s.subrange(fresh, first.end)),
            concatenated(s.subrange(first.end, covered)),
        );
    }
}

/// The chunks of any text, each without what it repeats, hold one after
/// the other what can be seen of the sentences of the text, in their order,
/// from the first sentence to the last that a chunk reaches: between the
/// chunks nothing is left out and nothing comes twice. The first chunk
/// repeats nothing.
pub proof fn lemma_chunks_cover_sentences(limits: ChunkLimits, text: Seq<char>)
    ensures
        ({
            let s = sentences_of(limits, cleaned(text));
            let spans = spans_of(limits, s);
            &&& 0 <= covered_end(spans, 0) <= s.len()
            &&& spans.len() > 0 ==> span_text(s, spans[0]) == fresh_text(s, spans[0])
            &&& visible(concatenated(fresh_texts(s, spans))) == visible(
                concatenated(s.subrange(0, covered_end(spans, 0))),
            )
        }),
{
    let s = sentences_of(limits, cleaned(text));
    lemma_spans_tiled(limits, s, 0, 0, 0);
    lemma_visible_fresh(s, spans_of(limits, s), 0, 0);
    if spans_of(limits, s).len() > 0 {
        lemma_tiled_at(s, spans_of(limits, s), 0, 0, 0);
    }
}

/// The chunks of a text, each without what it repeats, hold one after the
/// other everything that can be seen of the normal form of the text, in its
/// order, where nothing is dropped: no stretch of the text with anything to
/// see in it for being too short to be a sentence, and no rest for being too
/// short to be a chunk.
pub proof fn lemma_chunks_cover_text(limits: ChunkLimits, text: Seq<char>)
    requires
        nothing_dropped(limits, text),
    ensures
        visible(
            concatenated(
                fresh_texts(
                    sentences_of(limits, cleaned(text)),
                    spans_of(limits, sentences_of(limits, cleaned(text))),
                ),
            ),
        ) == visible(cleaned(text)),
{
    let clean = cleaned(text);
    let s = sentences_of(limits, clean);
    let stretches = stretches_of(limits, clean);
    let spans = spans_of(limits, s);
    lemma_spans_tiled(limits, s, 0, 0, 0);
    lemma_visible_fresh(s, spans, 0, 0);
    assert(s.subrange(0, s.len() as int) =~= s);
    lemma_visible_kept(limits, stretches);
    lemma_sentences_cover(limits, clean);
}

/// Joining a run of parts that is cut in two gives the two halves joined,
/// with a space between them where neither is empty.
proof fn lemma_joined_split(s: Seq<Seq<char>>, a: int, b: int, c: int)
    requires
        0 <= a <= b <= c <= s.len(),
    ensures
        joined(s.subrange(a, c)) == if a == b {
            joined(s.subrange(b, c))
        } else if b == c {
            joined(s.subrange(a, b))
        } else {
            joined(s.subrange(a, b)) + seq![' '] + joined(s.subrange(b, c))
        },
    decreases c - b,
{
    if a < b && b < c {
        lemma_joined_split(s, a, b, c - 1);
        lemma_joined_push(s.subrange(a, c - 1), s[c - 1]);
        lemma_joined_push(s.subrange(b, c - 1), s[c - 1]);
        assert(s.subrange(a, c) =~= s.subrange(a, c - 1).push(s[c - 1]));
        assert(s.subrange(b, c) =~= s.subrange(b, c - 1).push(s[c - 1]));
        let left = joined(s.subrange(a, b));
        let space = seq![' '];
        if b < c - 1 {
            let mid = joined(s.subrange(b, c - 1));
            assert((left + space + mid) + space + s[c - 1] =~= left + space + (mid + space + s[c
                - 1]));
        }
    }
}

/// A run of parts, joined, begins with each run at its start and ends with
/// each run at its end.
proof fn lemma_joined_ends(s: Seq<Seq<char>>, a: int, b: int, c: int)
    requires
        0 <= a <= b <= c <= s.len(),
    ensures
        starts_with(joined(s.subrange(a, c)), joined(s.subrange(a, b))),
        ends_with(joined(s.subrange(a, c)), joined(s.subrange(b, c))),
{
    lemma_joined_split(s, a, b, c);
    let all = joined(s.subrange(a, c));
    let head = joined(s.subrange(a, b));
    let tail = joined(s.subrange(b, c));
    if a == b {
        assert(s.subrange(a, b) =~= Seq::<Seq<char>>::empty());
    }
    if b == c {
        assert(s.subrange(b, c) =~= Seq::<Seq<char>>::empty());
    }
    assert(all.subrange(0, head.len() as int) =~= head);
    assert(all.subrange(all.len() - tail.len(), all.len() as int) =~= tail);
}

/// What a chunk repeats is the end of the chunk before it: every chunk but
/// the first begins with a run of whole sentences, in their order, with
/// which the chunk before it ends, and goes on, after a space, with what it
/// adds. The run is the longest at the end of what the chunk before has
/// added that has at most `limits.overlap` characters: it is not empty
/// where the last of these sentences is that short.
pub proof fn lemma_chunks_overlap(limits: ChunkLimits, s: Seq<Seq<char>>, k: int)
    requires
        0 < k < spans_of(limits, s).len(),
    ensures
        ({
            let before = spans_of(limits, s)[k - 1];
            let chunk = spans_of(limits, s)[k];
            let shared = joined(s.subrange(chunk.start, chunk.fresh));
            &&& before.start <= chunk.start <= chunk.fresh == before.end <= chunk.end
            &&& starts_with(span_text(s, chunk), shared)
            &&& ends_with(span_text(s, before), shared)
            &&& span_text(s, chunk) == if chunk.start == chunk.fresh {
                fresh_text(s, chunk)
            } else if chunk.fresh == chunk.end {
                shared
            } else {
                shared + seq![' '] + fresh_text(s, chunk)
            }
            &&& chunk.start == overlap_start(limits, s, before.fresh, before.end)
            &&& shared.len() <= limits.overlap
            &&& before.fresh < before.end && s[before.end - 1].len() <= limits.overlap
                ==> chunk.start < chunk.fresh
        }),
{
    let spans = spans_of(limits, s);
    let before = spans[k - 1];
    let chunk = spans[k];
    lemma_spans_tiled(limits, s, 0, 0, 0);
    lemma_tiled_at(s, spans, 0, 0, k);
    lemma_tiled_at(s, spans, 0, 0, k - 1);
    lemma_joined_ends(s, chunk.start, chunk.fresh, chunk.end);
    lemma_joined_ends(s, before.start, chunk.start, before.end);
    lemma_joined_split(s, chunk.start, chunk.fresh, chunk.end);
    lemma_spans_overlap(limits, s, 0, 0, 0);
    lemma_overlaps_at(limits, s, spans, k);
    lemma_overlap_start(limits, s, before.fresh, before.end);
    if before.fresh < before.end && s[before.end - 1].len() <= limits.overlap {
        assert(s.subrange(before.end - 1, before.end) =~= seq![s[before.end - 1]]);
        lemma_overlap_start_from(limits, s, before.fresh, before.end - 1, before.end);
    }
}

} // verus!
