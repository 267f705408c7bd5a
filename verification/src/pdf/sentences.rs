//! Cutting a text into sentences.

use crate::pdf::boundary::{is_blank, is_closer, sentence_end_at, sentence_ends_at};
use crate::pdf::ChunkLimits;
use crate::text::{
    copy_chars, is_space, is_trimmed, lemma_trim_is_trimmed, trim, trim_slice, views_of,
};
use vstd::prelude::*;

verus! {

/// The first index at or after `i` that holds neither a closing quote or
/// bracket nor a space or tab, or the length.
pub open spec fn swallow_end(chars: Seq<char>, i: int) -> int
    decreases chars.len() - i,
{
    if 0 <= i < chars.len() && (is_closer(chars[i]) || is_blank(chars[i])) {
        swallow_end(chars, i + 1)
    } else {
        i
    }
}

/// The closing quotes and brackets among `chars[from..to]`, in order.
pub open spec fn closers_between(chars: Seq<char>, from: int, to: int) -> Seq<char>
    decreases to - from,
{
    if from >= to {
        Seq::empty()
    } else if is_closer(chars[to - 1]) {
        closers_between(chars, from, to - 1).push(chars[to - 1])
    } else {
        closers_between(chars, from, to - 1)
    }
}

pub proof fn lemma_swallow_end(chars: Seq<char>, i: int)
    requires
        0 <= i <= chars.len(),
    ensures
        i <= swallow_end(chars, i) <= chars.len(),
    decreases chars.len() - i,
{
    if i < chars.len() && (is_closer(chars[i]) || is_blank(chars[i])) {
        lemma_swallow_end(chars, i + 1);
    }
}

/// The stretches into which `chars` is cut from `start` on, where
/// `chars[start..i]` has been read without finding an end.
///
/// A stretch ends where `sentence_end_at` says that a sentence ends; closing
/// quotes and brackets that follow go with it, spaces and tabs between them
/// are dropped. It also ends where `limits.max` characters have been read
/// without an end. What is left at the end of the text is the last stretch.
pub open spec fn stretches_from(
    limits: ChunkLimits,
    chars: Seq<char>,
    start: int,
    i: int,
) -> Seq<Seq<char>>
    decreases chars.len() - i,
{
    if !(0 <= start <= i <= chars.len()) {
        Seq::empty()
    } else if i == chars.len() {
        seq![chars.subrange(start, chars.len() as int)]
    } else if sentence_end_at(chars, i) {
        let next = swallow_end(chars, i + 1);
        proof {
            lemma_swallow_end(chars, i + 1);
        }
        seq![chars.subrange(start, i + 1) + closers_between(chars, i + 1, next)] + stretches_from(
            limits,
            chars,
            next,
            next,
        )
    } else if i + 1 - start >= limits.max as int {
        seq![chars.subrange(start, i + 1)] + stretches_from(limits, chars, i + 1, i + 1)
    } else {
        stretches_from(limits, chars, start, i + 1)
    }
}

/// The stretches into which `chars` is cut.
pub open spec fn stretches_of(limits: ChunkLimits, chars: Seq<char>) -> Seq<Seq<char>> {
    stretches_from(limits, chars, 0, 0)
}

/// What is kept of a stretch of text as a sentence: the stretch without
/// the whitespace around it, unless that is too short.
pub open spec fn kept_sentence(limits: ChunkLimits, raw: Seq<char>) -> Seq<Seq<char>> {
    if trim(raw).len() > limits.short as int {
        seq![trim(raw)]
    } else {
        Seq::empty()
    }
}

/// What is kept of each stretch as a sentence, in order.
pub open spec fn kept_sentences(limits: ChunkLimits, stretches: Seq<Seq<char>>) -> Seq<Seq<char>>
    decreases stretches.len(),
{
    if stretches.len() == 0 {
        Seq::empty()
    } else {
        kept_sentence(limits, stretches[0]) + kept_sentences(limits, stretches.drop_first())
    }
}

/// The sentences of `chars`: its stretches, each without the whitespace
/// around it, those left out that are left with at most `limits.short`
/// characters.
pub open spec fn sentences_of(limits: ChunkLimits, chars: Seq<char>) -> Seq<Seq<char>> {
    kept_sentences(limits, stretches_of(limits, chars))
}

/// The stretches one after the other.
pub open spec fn concatenated(stretches: Seq<Seq<char>>) -> Seq<char>
    decreases stretches.len(),
{
    if stretches.len() == 0 {
        Seq::empty()
    } else {
        stretches[0] + concatenated(stretches.drop_first())
    }
}

/// The characters of `s` that are not whitespace, in order.
pub open spec fn visible(s: Seq<char>) -> Seq<char>
    decreases s.len(),
{
    if s.len() == 0 {
        Seq::empty()
    } else if is_space(s.last()) {
        visible(s.drop_last())
    } else {
        visible(s.drop_last()).push(s.last())
    }
}

pub proof fn lemma_visible_concat(a: Seq<char>, b: Seq<char>)
    ensures
        visible(a + b) == visible(a) + visible(b),
    decreases b.len(),
{
    if b.len() == 0 {
        assert(a + b =~= a);
        assert(visible(a) + visible(b) =~= visible(a));
    } else {
        lemma_visible_concat(a, b.drop_last());
        assert((a + b).drop_last() =~= a + b.drop_last());
        assert((a + b).last() == b.last());
        if !is_space(b.last()) {
            assert(visible(a + b) =~= visible(a) + visible(b));
        }
    }
}

proof fn lemma_visible_swallowed(chars: Seq<char>, from: int, to: int)
    requires
        0 <= from <= to <= chars.len(),
        forall|k: int| from <= k < to ==> is_closer(#[trigger] chars[k]) || is_blank(chars[k]),
    ensures
        visible(chars.subrange(from, to)) == closers_between(chars, from, to),
    decreases to - from,
{
    if from < to {
        lemma_visible_swallowed(chars, from, to - 1);
        assert(chars.subrange(from, to).drop_last() =~= chars.subrange(from, to - 1));
        assert(chars.subrange(from, to).last() == chars[to - 1]);
    } else {
        assert(chars.subrange(from, to) =~= Seq::<char>::empty());
    }
}

proof fn lemma_visible_closers(chars: Seq<char>, from: int, to: int)
    requires
        0 <= from <= to <= chars.len(),
    ensures
        visible(closers_between(chars, from, to)) == closers_between(chars, from, to),
    decreases to - from,
{
    if from < to {
        lemma_visible_closers(chars, from, to - 1);
        if is_closer(chars[to - 1]) {
            let all = closers_between(chars, from, to);
            assert(all.drop_last() =~= closers_between(chars, from, to - 1));
        }
    }
}

proof fn lemma_swallowed(chars: Seq<char>, i: int)
    requires
        0 <= i <= chars.len(),
    ensures
        forall|k: int|
            i <= k < swallow_end(chars, i) ==> is_closer(#[trigger] chars[k]) || is_blank(chars[k]),
    decreases chars.len() - i,
{
    if i < chars.len() && (is_closer(chars[i]) || is_blank(chars[i])) {
        lemma_swallowed(chars, i + 1);
    }
}

proof fn lemma_kept_first(limits: ChunkLimits, raw: Seq<char>, rest: Seq<Seq<char>>)
    ensures
        kept_sentences(limits, seq![raw] + rest) == kept_sentence(limits, raw) + kept_sentences(limits, rest),
        concatenated(seq![raw] + rest) == raw + concatenated(rest),
{
    let all = seq![raw] + rest;
    assert(all[0] == raw);
    assert(all.drop_first() =~= rest);
}

/// Cutting a text into stretches loses nothing that can be seen: the
/// stretches, one after the other, hold the characters of the text that are
/// not whitespace, all of them and in their order.
pub proof fn lemma_stretches_keep_text(limits: ChunkLimits, chars: Seq<char>, start: int, i: int)
    requires
        0 <= start <= i <= chars.len(),
    ensures
        visible(concatenated(stretches_from(limits, chars, start, i))) == visible(
            chars.subrange(start, chars.len() as int),
        ),
    decreases chars.len() - i,
{
    let n = chars.len() as int;
    let none = Seq::<Seq<char>>::empty();
    assert(concatenated(none) =~= Seq::<char>::empty());
    if i == chars.len() {
        let raw = chars.subrange(start, n);
        lemma_kept_first(limits, raw, none);
        assert(seq![raw] + none =~= seq![raw]);
        assert(raw + Seq::<char>::empty() =~= raw);
    } else if sentence_end_at(chars, i) {
        let next = swallow_end(chars, i + 1);
        lemma_swallow_end(chars, i + 1);
        lemma_swallowed(chars, i + 1);
        lemma_stretches_keep_text(limits, chars, next, next);
        let head = chars.subrange(start, i + 1);
        let closers = closers_between(chars, i + 1, next);
        let raw = head + closers;
        let rest = stretches_from(limits, chars, next, next);
        lemma_kept_first(limits, raw, rest);
        lemma_visible_concat(raw, concatenated(rest));
        lemma_visible_concat(head, closers);
        lemma_visible_closers(chars, i + 1, next);
        lemma_visible_swallowed(chars, i + 1, next);
        let middle = chars.subrange(i + 1, next);
        let tail = chars.subrange(next, n);
        lemma_visible_concat(head, middle);
        lemma_visible_concat(head + middle, tail);
        assert(chars.subrange(start, n) =~= head + middle + tail);
    } else if i + 1 - start >= limits.max as int {
        lemma_stretches_keep_text(limits, chars, i + 1, i + 1);
        let raw = chars.subrange(start, i + 1);
        let rest = stretches_from(limits, chars, i + 1, i + 1);
        lemma_kept_first(limits, raw, rest);
        lemma_visible_concat(raw, concatenated(rest));
        lemma_visible_concat(raw, chars.subrange(i + 1, n));
        assert(chars.subrange(start, n) =~= raw + chars.subrange(i + 1, n));
    } else {
        lemma_stretches_keep_text(limits, chars, start, i + 1);
    }
}

/// The stretches of a text hold, one after the other, all its characters
/// that are not whitespace, in their order.
pub proof fn lemma_sentences_cover(limits: ChunkLimits, chars: Seq<char>)
    ensures
        visible(concatenated(stretches_of(limits, chars))) == visible(chars),
{
    lemma_stretches_keep_text(limits, chars, 0, 0);
    assert(chars.subrange(0, chars.len() as int) =~= chars);
}

/// Appends to `out` what is kept of `raw` as a sentence.
fn keep_sentence(limits: ChunkLimits, out: &mut Vec<Vec<char>>, raw: &Vec<char>)
    ensures
        views_of(final(out)@) == views_of(old(out)@) + kept_sentence(limits, raw@),
{
    let trimmed = trim_slice(raw.as_slice());
    if trimmed.len() > limits.short {
        let sentence = copy_chars(trimmed);
        out.push(sentence);
        assert(views_of(out@) =~= views_of(old(out)@) + seq![trim(raw@)]);
    } else {
        assert(views_of(out@) =~= views_of(old(out)@) + Seq::<Seq<char>>::empty());
    }
}

/// The sentences of `chars`.
pub fn split_chars(limits: ChunkLimits, chars: &[char]) -> (out: Vec<Vec<char>>)
    ensures
        views_of(out@) == sentences_of(limits, chars@),
{
    let n = chars.len();
    let mut out: Vec<Vec<char>> = Vec::new();
    let mut current: Vec<char> = Vec::new();
    let mut start: usize = 0;
    let mut i: usize = 0;
    assert(views_of(out@) + sentences_of(limits, chars@) =~= sentences_of(limits, chars@));
    assert(chars@.subrange(0, 0) =~= current@);
    while i < n
        invariant
            n == chars@.len(),
            start <= i <= n,
            current@ == chars@.subrange(start as int, i as int),
            views_of(out@) + kept_sentences(
                limits,
                stretches_from(limits, chars@, start as int, i as int),
            ) == sentences_of(limits, chars@),
        decreases n - i,
    {
        let ch = chars[i];
        current.push(ch);
        assert(current@ == chars@.subrange(start as int, i + 1));
        let ghost before = views_of(out@);
        if (ch == '.' || ch == '!' || ch == '?') && sentence_ends_at(chars, i) {
            let mut j: usize = i + 1;
            assert(closers_between(chars@, i + 1, j as int) =~= Seq::<char>::empty());
            assert(current@ + Seq::<char>::empty() =~= current@);
            while j < n && (chars[j] == '"' || chars[j] == '\'' || chars[j] == ')' || chars[j]
                == ']' || chars[j] == '}' || chars[j] == ' ' || chars[j] == '\t')
                invariant
                    n == chars@.len(),
                    i < j <= n,
                    swallow_end(chars@, j as int) == swallow_end(chars@, i + 1),
                    current@ == chars@.subrange(start as int, i + 1) + closers_between(
                        chars@,
                        i + 1,
                        j as int,
                    ),
                decreases n - j,
            {
                let next_ch = chars[j];
                if !(next_ch == ' ' || next_ch == '\t') {
                    current.push(next_ch);
                    assert(current@ =~= chars@.subrange(start as int, i + 1) + closers_between(
                        chars@,
                        i + 1,
                        j + 1,
                    ));
                }
                j += 1;
            }
            proof {
                lemma_kept_first(limits, current@, stretches_from(limits, chars@, j as int, j as int));
            }
            keep_sentence(limits, &mut out, &current);
            current.clear();
            assert(views_of(out@) + kept_sentences(
                limits,
                stretches_from(limits, chars@, j as int, j as int),
            ) =~= before + kept_sentences(
                limits,
                stretches_from(limits, chars@, start as int, i as int),
            ));
            start = j;
            i = j;
            assert(chars@.subrange(start as int, i as int) =~= current@);
        } else if i + 1 - start >= limits.max {
            proof {
                lemma_kept_first(limits, current@, stretches_from(limits, chars@, i + 1, i + 1));
            }
            keep_sentence(limits, &mut out, &current);
            current.clear();
            assert(views_of(out@) + kept_sentences(
                limits,
                stretches_from(limits, chars@, i + 1, i + 1),
            ) =~= before + kept_sentences(
                limits,
                stretches_from(limits, chars@, start as int, i as int),
            ));
            start = i + 1;
            i = i + 1;
            assert(chars@.subrange(start as int, i as int) =~= current@);
        } else {
            i += 1;
        }
    }
    assert(chars@.subrange(start as int, n as int) == current@);
    proof {
        lemma_kept_first(limits, current@, Seq::empty());
        assert(seq![current@] + Seq::<Seq<char>>::empty() =~= seq![current@]);
        assert(kept_sentences(limits, Seq::<Seq<char>>::empty()) =~= Seq::<Seq<char>>::empty());
    }
    keep_sentence(limits, &mut out, &current);
    out
}

/// Whether `sentence` has more than `limits.short` characters and neither
/// starts nor ends with whitespace.
pub open spec fn well_formed_sentence(limits: ChunkLimits, sentence: Seq<char>) -> bool {
    sentence.len() > limits.short as int && is_trimmed(sentence)
}

/// Whether every sentence of `sentences` is well formed.
pub open spec fn well_formed_sentences(limits: ChunkLimits, sentences: Seq<Seq<char>>) -> bool {
    forall|k: int| 0 <= k < sentences.len() ==> well_formed_sentence(limits, #[trigger] sentences[k])
}

proof fn lemma_kept_then(limits: ChunkLimits, raw: Seq<char>, rest: Seq<Seq<char>>)
    requires
        well_formed_sentences(limits, rest),
    ensures
        well_formed_sentences(limits, kept_sentence(limits, raw) + rest),
{
    lemma_trim_is_trimmed(raw);
    let head = kept_sentence(limits, raw);
    let all = head + rest;
    assert forall|k: int| 0 <= k < all.len() implies well_formed_sentence(limits, #[trigger] all[k]) by {
        if k < head.len() {
            assert(all[k] == trim(raw));
        } else {
            assert(all[k] == rest[k - head.len()]);
        }
    }
}

/// Every sentence that is kept is well formed.
pub proof fn lemma_sentences_well_formed(limits: ChunkLimits, stretches: Seq<Seq<char>>)
    ensures
        well_formed_sentences(limits, kept_sentences(limits, stretches)),
    decreases stretches.len(),
{
    if stretches.len() > 0 {
        lemma_sentences_well_formed(limits, stretches.drop_first());
        lemma_kept_then(limits, stretches[0], kept_sentences(limits, stretches.drop_first()));
    }
}

} // verus!
