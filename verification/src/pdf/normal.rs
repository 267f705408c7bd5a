//! The normal form of a text.

use crate::text::{
    is_trimmed, joined, lemma_joined_prepend, lemma_joined_push, lemma_skip_spaces,
    lemma_skip_spaces_back, lemma_trim_is_trimmed, push_all, skip_spaces, trim, trim_slice,
};
use vstd::prelude::*;

verus! {

/// The first index at or after `i` that holds a line feed, or the length.
pub open spec fn line_end(s: Seq<char>, i: int) -> int
    decreases s.len() - i,
{
    if 0 <= i < s.len() && s[i] != '\n' {
        line_end(s, i + 1)
    } else {
        i
    }
}

pub proof fn lemma_line_end(s: Seq<char>, i: int)
    requires
        0 <= i <= s.len(),
    ensures
        i <= line_end(s, i) <= s.len(),
    decreases s.len() - i,
{
    if i < s.len() && s[i] != '\n' {
        lemma_line_end(s, i + 1);
    }
}

/// The lines of `s` from index `i` on, each without the whitespace around
/// it, the empty ones left out.
pub open spec fn clean_lines(s: Seq<char>, i: int) -> Seq<Seq<char>>
    decreases s.len() - i,
{
    if i < 0 || i >= s.len() {
        Seq::empty()
    } else {
        let e = line_end(s, i);
        proof {
            lemma_line_end(s, i);
        }
        let line = trim(s.subrange(i, e));
        let rest = if e < s.len() {
            clean_lines(s, e + 1)
        } else {
            Seq::empty()
        };
        if line.len() > 0 {
            seq![line] + rest
        } else {
            rest
        }
    }
}

/// `s` without the spaces that follow a space.
pub open spec fn squeeze_spaces(s: Seq<char>) -> Seq<char>
    decreases s.len(),
{
    if s.len() == 0 {
        s
    } else if s.len() >= 2 && s[s.len() - 1] == ' ' && s[s.len() - 2] == ' ' {
        squeeze_spaces(s.drop_last())
    } else {
        squeeze_spaces(s.drop_last()).push(s.last())
    }
}

/// The normal form of a text: its lines without the whitespace around
/// them, the empty ones dropped, joined by single spaces, and runs of spaces
/// reduced to one space.
pub open spec fn cleaned(text: Seq<char>) -> Seq<char> {
    squeeze_spaces(joined(clean_lines(text, 0)))
}

/// Whether `s` holds no line feed.
pub open spec fn no_line_feed(s: Seq<char>) -> bool {
    forall|i: int| 0 <= i < s.len() ==> #[trigger] s[i] != '\n'
}

/// Whether `s` holds no space right after a space.
pub open spec fn no_double_space(s: Seq<char>) -> bool {
    forall|i: int| 0 < i < s.len() ==> !(s[i - 1] == ' ' && #[trigger] s[i] == ' ')
}

/// Whether `line` is what a line of text leaves: not empty, without
/// whitespace around it, and without a line feed.
pub open spec fn is_clean_line(line: Seq<char>) -> bool {
    line.len() > 0 && is_trimmed(line) && no_line_feed(line)
}

proof fn lemma_line_has_no_feed(s: Seq<char>, i: int)
    requires
        0 <= i <= s.len(),
    ensures
        forall|k: int| i <= k < line_end(s, i) ==> #[trigger] s[k] != '\n',
    decreases s.len() - i,
{
    if i < s.len() && s[i] != '\n' {
        lemma_line_has_no_feed(s, i + 1);
    }
}

proof fn lemma_clean_lines(s: Seq<char>, i: int)
    requires
        0 <= i <= s.len(),
    ensures
        forall|k: int|
            0 <= k < clean_lines(s, i).len() ==> is_clean_line(#[trigger] clean_lines(s, i)[k]),
    decreases s.len() - i,
{
    if i < s.len() {
        let e = line_end(s, i);
        lemma_line_end(s, i);
        lemma_line_has_no_feed(s, i);
        let raw = s.subrange(i, e);
        let line = trim(raw);
        lemma_trim_is_trimmed(raw);
        lemma_skip_spaces(raw, 0);
        lemma_skip_spaces_back(raw, raw.len() as int);
        assert(no_line_feed(line)) by {
            assert forall|k: int| 0 <= k < line.len() implies #[trigger] line[k] != '\n' by {
                let a = skip_spaces(raw, 0);
                assert(line[k] == raw[a + k]);
                assert(raw[a + k] == s[i + a + k]);
            }
        }
        let rest = if e < s.len() {
            clean_lines(s, e + 1)
        } else {
            Seq::empty()
        };
        if e < s.len() {
            lemma_clean_lines(s, e + 1);
        }
        let all = clean_lines(s, i);
        assert forall|k: int| 0 <= k < all.len() implies is_clean_line(#[trigger] all[k]) by {
            if line.len() > 0 {
                if k > 0 {
                    assert(all[k] == rest[k - 1]);
                }
            }
        }
    }
}

proof fn lemma_joined_clean(parts: Seq<Seq<char>>)
    requires
        forall|k: int| 0 <= k < parts.len() ==> is_clean_line(#[trigger] parts[k]),
    ensures
        no_line_feed(joined(parts)),
        is_trimmed(joined(parts)),
        parts.len() > 0 ==> joined(parts).len() > 0 && joined(parts)[0] == parts[0][0] && joined(
            parts,
        ).last() == parts.last().last(),
    decreases parts.len(),
{
    if parts.len() >= 2 {
        let head = parts.drop_last();
        assert forall|k: int| 0 <= k < head.len() implies is_clean_line(#[trigger] head[k]) by {
            assert(head[k] == parts[k]);
        }
        lemma_joined_clean(head);
        assert(is_clean_line(parts.last()));
        let all = joined(parts);
        let left = joined(head);
        assert(all == left + seq![' '] + parts.last());
        assert forall|i: int| 0 <= i < all.len() implies #[trigger] all[i] != '\n' by {
            if i < left.len() {
                assert(all[i] == left[i]);
            } else if i == left.len() {
                assert(all[i] == ' ');
            } else {
                assert(all[i] == parts.last()[i - left.len() - 1]);
            }
        }
        assert(all[0] == left[0]);
        assert(all.last() == parts.last().last());
        assert(head[0] == parts[0]);
    } else if parts.len() == 1 {
        assert(is_clean_line(parts[0]));
    }
}

proof fn lemma_squeeze(s: Seq<char>)
    ensures
        s.len() > 0 ==> squeeze_spaces(s).len() > 0 && squeeze_spaces(s)[0] == s[0]
            && squeeze_spaces(s).last() == s.last(),
        s.len() == 0 ==> squeeze_spaces(s).len() == 0,
        no_line_feed(s) ==> no_line_feed(squeeze_spaces(s)),
        no_double_space(squeeze_spaces(s)),
    decreases s.len(),
{
    if s.len() > 0 {
        let t = s.drop_last();
        lemma_squeeze(t);
        let q = squeeze_spaces(t);
        let c = s.last();
        if s.len() >= 2 {
            assert(t.last() == s[s.len() - 2]);
            assert(t[0] == s[0]);
        }
        if s.len() >= 2 && s[s.len() - 1] == ' ' && s[s.len() - 2] == ' ' {
        } else {
            let out = q.push(c);
            assert(squeeze_spaces(s) == out);
            if no_line_feed(s) {
                assert(no_line_feed(t)) by {
                    assert forall|i: int| 0 <= i < t.len() implies #[trigger] t[i] != '\n' by {
                        assert(t[i] == s[i]);
                    }
                }
                assert forall|i: int| 0 <= i < out.len() implies #[trigger] out[i] != '\n' by {
                    if i < q.len() {
                        assert(out[i] == q[i]);
                    } else {
                        assert(out[i] == s[s.len() - 1]);
                    }
                }
            }
            assert forall|i: int| 0 < i < out.len() implies !(out[i - 1] == ' ' && #[trigger] out[i]
                == ' ') by {
                if i < q.len() {
                    assert(out[i] == q[i] && out[i - 1] == q[i - 1]);
                } else {
                    assert(out[i - 1] == q.last());
                }
            }
        }
        if no_line_feed(s) {
            assert(no_line_feed(t)) by {
                assert forall|i: int| 0 <= i < t.len() implies #[trigger] t[i] != '\n' by {
                    assert(t[i] == s[i]);
                }
            }
        }
    }
}

/// The normal form of a text holds no line feed and no space right after a
/// space, and neither starts nor ends with whitespace.
pub proof fn lemma_cleaned_is_normal(text: Seq<char>)
    ensures
        no_line_feed(cleaned(text)),
        no_double_space(cleaned(text)),
        is_trimmed(cleaned(text)),
{
    lemma_clean_lines(text, 0);
    let lines = clean_lines(text, 0);
    lemma_joined_clean(lines);
    lemma_squeeze(joined(lines));
}

/// The joined lines are no longer than the text they are taken from.
pub proof fn lemma_clean_lines_len(s: Seq<char>, i: int)
    requires
        0 <= i <= s.len(),
    ensures
        joined(clean_lines(s, i)).len() <= s.len() - i,
    decreases s.len() - i,
{
    if i < s.len() {
        let e = line_end(s, i);
        lemma_line_end(s, i);
        let line = trim(s.subrange(i, e));
        lemma_trim_is_trimmed(s.subrange(i, e));
        let rest = if e < s.len() {
            clean_lines(s, e + 1)
        } else {
            Seq::empty()
        };
        if e < s.len() {
            lemma_clean_lines_len(s, e + 1);
        }
        if line.len() > 0 {
            lemma_joined_prepend(line, rest);
        }
    }
}

/// The lines of `chars` without the whitespace around them, the empty ones
/// dropped, joined by single spaces.
pub fn join_lines(chars: &[char]) -> (out: Vec<char>)
    ensures
        out@ == joined(clean_lines(chars@, 0)),
{
    let n = chars.len();
    let mut out: Vec<char> = Vec::new();
    let ghost mut lines: Seq<Seq<char>> = Seq::empty();
    let mut any = false;
    let mut i: usize = 0;
    assert(lines + clean_lines(chars@, 0) =~= clean_lines(chars@, 0));
    while i < n
        invariant
            n == chars@.len(),
            i <= n,
            any == (lines.len() > 0),
            out@ == joined(lines),
            lines + clean_lines(chars@, i as int) == clean_lines(chars@, 0),
        decreases n - i,
    {
        let mut e: usize = i;
        while e < n && chars[e] != '\n'
            invariant
                n == chars@.len(),
                i <= e <= n,
                line_end(chars@, e as int) == line_end(chars@, i as int),
            decreases n - e,
        {
            e += 1;
        }
        let line = trim_slice(&chars[i..e]);
        let ghost rest = if e < n {
            clean_lines(chars@, e + 1)
        } else {
            Seq::empty()
        };
        if line.len() > 0 {
            if any {
                out.push(' ');
            }
            push_all(&mut out, line);
            proof {
                lemma_joined_push(lines, line@);
                assert((lines.push(line@)) + rest =~= lines + (seq![line@] + rest));
                lines = lines.push(line@);
            }
            any = true;
        }
        if e < n {
            i = e + 1;
        } else {
            i = n;
        }
    }
    assert(lines =~= clean_lines(chars@, 0));
    out
}

/// `chars` without the spaces that follow a space.
pub fn squeeze(chars: &[char]) -> (out: Vec<char>)
    ensures
        out@ == squeeze_spaces(chars@),
{
    let m = chars.len();
    let mut out: Vec<char> = Vec::new();
    let mut k: usize = 0;
    assert(chars@.take(0) =~= Seq::<char>::empty());
    while k < m
        invariant
            m == chars@.len(),
            k <= m,
            out@ == squeeze_spaces(chars@.take(k as int)),
        decreases m - k,
    {
        let c = chars[k];
        let ghost next = chars@.take(k + 1);
        assert(next.drop_last() =~= chars@.take(k as int));
        assert(next.last() == c);
        if !(c == ' ' && k > 0 && chars[k - 1] == ' ') {
            out.push(c);
        }
        k += 1;
    }
    assert(chars@.take(m as int) =~= chars@);
    out
}

/// The normal form of `chars`.
pub fn clean_chars(chars: &[char]) -> (out: Vec<char>)
    ensures
        out@ == cleaned(chars@),
{
    let lines = join_lines(chars);
    squeeze(lines.as_slice())
}

} // verus!
