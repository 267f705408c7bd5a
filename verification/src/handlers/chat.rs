//! Rewriting a question so that it lies closer to the text of a rule book.

use crate::db::embeddings::{is_ranking, rank_by_score};
use crate::models::chat::LLMMessage;
use crate::models::embedding::EmbeddingSourceType;
use crate::text::{
    chars_of, contains, copy_chars, has_infix_str, has_prefix_str, is_space, is_whitespace,
    join_parts, join_with, joined, joined_with, lowercase, push_all, push_str, replace_all_str,
    replaced, same_chars, starts_with, string_of, string_views, strings_of, strip_prefix_str,
    to_lowercase, trim, trim_slice, views_of, without_prefix,
};
use vstd::prelude::*;

verus! {

/// Which chat session a request is about.
#[derive(Debug)]
pub struct ChatSessionPathParam {
    pub id: i64,
}

/// Which chat sessions are listed: those of a game, one page of them.
#[derive(Debug)]
pub struct ChatSessionsByGameQuery {
    pub game_id: String,
    pub page: u32,
    pub limit: u32,
}

/// A search over the rules of a game.
#[derive(Debug)]
pub struct RulesSearchQuery {
    pub game_id: String,
    pub query: String,
    pub limit: Option<usize>,
}

/// The three words for `concept` in a rule book, if the question names it.
pub open spec fn terms_for(
    lower: Seq<char>,
    concept: Seq<char>,
    a: Seq<char>,
    b: Seq<char>,
    c: Seq<char>,
) -> Seq<Seq<char>> {
    if contains(lower, concept) {
        seq![a, b, c]
    } else {
        Seq::empty()
    }
}

/// The words of a rule book for what a question, given in lower case,
/// speaks of: three for each concept that it names, in a fixed order of the
/// concepts.
pub open spec fn game_terms(lower: Seq<char>) -> Seq<Seq<char>> {
    terms_for(lower, "win"@, "victory"@, "winning condition"@, "game end"@) + terms_for(
        lower,
        "lose"@,
        "defeat"@,
        "elimination"@,
        "losing condition"@,
    ) + terms_for(lower, "turn"@, "round"@, "phase"@, "player turn"@) + terms_for(
        lower,
        "move"@,
        "movement"@,
        "moving pieces"@,
        "relocate"@,
    ) + terms_for(lower, "attack"@, "combat"@, "battle"@, "fight"@) + terms_for(
        lower,
        "defend"@,
        "defense"@,
        "block"@,
        "protection"@,
    ) + terms_for(lower, "points"@, "score"@, "scoring"@, "victory points"@) + terms_for(
        lower,
        "cards"@,
        "hand"@,
        "deck"@,
        "draw"@,
    ) + terms_for(lower, "dice"@, "roll"@, "rolling"@, "die"@) + terms_for(
        lower,
        "setup"@,
        "preparation"@,
        "initial setup"@,
        "game setup"@,
    ) + terms_for(lower, "end"@, "finish"@, "conclusion"@, "game over"@)
}

/// `lower` without the first of the two prefixes that it starts with, or
/// `lower` itself.
pub open spec fn without_either(
    lower: Seq<char>,
    first: Seq<char>,
    second: Seq<char>,
) -> Seq<char> {
    match without_prefix(lower, first) {
        Some(rest) => rest,
        None => match without_prefix(lower, second) {
            Some(rest) => rest,
            None => lower,
        },
    }
}

/// The forms of a question, given in lower case, that read like a
/// statement of a rule book.
///
/// "how do i X" and "how to X" give X, "rules for X" and "instructions X".
/// A question that starts with "what" and speaks of what "happens" is given
/// with "when" and with "rules" in place of "what happens"; one that asks what
/// "can i" or "may i" is given with "player may" in place of "what can i" and
/// of "what may i", and with "allowed actions"; any other stays. A question
/// that starts with "when" is given as it is, with "if" in place of "when",
/// and with "timing rules". "can i X" and "may i X" give "player may X",
/// "allowed to X" and X. Anything else stays as it is.
pub open spec fn statement_forms(lower: Seq<char>) -> Seq<Seq<char>> {
    if starts_with(lower, "how do i"@) || starts_with(lower, "how to"@) {
        let rest = without_either(lower, "how do i "@, "how to "@);
        seq![rest, "rules for "@ + rest, "instructions "@ + rest]
    } else if starts_with(lower, "what"@) {
        if contains(lower, "happens"@) {
            seq![
                replaced(lower, "what happens"@, "when"@),
                replaced(lower, "what happens"@, "rules"@),
            ]
        } else if contains(lower, "can i"@) || contains(lower, "may i"@) {
            seq![
                replaced(lower, "what can i"@, "player may"@),
                replaced(lower, "what may i"@, "player may"@),
                "allowed actions"@,
            ]
        } else {
            seq![lower]
        }
    } else if starts_with(lower, "when"@) {
        seq![lower, replaced(lower, "when"@, "if"@), "timing rules"@]
    } else if starts_with(lower, "can i"@) || starts_with(lower, "may i"@) {
        let rest = without_either(lower, "can i "@, "may i "@);
        seq!["player may "@ + rest, "allowed to "@ + rest, rest]
    } else {
        seq![lower]
    }
}

/// The question followed by its statement forms and by the words of a rule
/// book for what it speaks of, a space between each two, where `lower` is
/// the question in lower case.
pub open spec fn enhanced_query(query: Seq<char>, lower: Seq<char>) -> Seq<char> {
    query + seq![' '] + joined(statement_forms(lower) + game_terms(lower))
}

fn add_terms(
    terms: &mut Vec<Vec<char>>,
    lower: &[char],
    concept: &str,
    a: &str,
    b: &str,
    c: &str,
)
    ensures
        views_of(final(terms)@) == views_of(old(terms)@) + terms_for(lower@, concept@, a@, b@, c@),
{
    if has_infix_str(lower, concept) {
        terms.push(chars_of(a));
        terms.push(chars_of(b));
        terms.push(chars_of(c));
        assert(views_of(terms@) =~= views_of(old(terms)@) + seq![a@, b@, c@]);
    } else {
        assert(views_of(terms@) =~= views_of(old(terms)@) + Seq::<Seq<char>>::empty());
    }
}

/// The words of a rule book for what a question, given in lower case,
/// speaks of.
pub fn game_terms_of(lower: &[char]) -> (terms: Vec<Vec<char>>)
    ensures
        views_of(terms@) == game_terms(lower@),
{
    let mut terms: Vec<Vec<char>> = Vec::new();
    add_terms(&mut terms, lower, "win", "victory", "winning condition", "game end");
    assert(views_of(terms@) =~= terms_for(
        lower@,
        "win"@,
        "victory"@,
        "winning condition"@,
        "game end"@,
    ));
    add_terms(&mut terms, lower, "lose", "defeat", "elimination", "losing condition");
    add_terms(&mut terms, lower, "turn", "round", "phase", "player turn");
    add_terms(&mut terms, lower, "move", "movement", "moving pieces", "relocate");
    add_terms(&mut terms, lower, "attack", "combat", "battle", "fight");
    add_terms(&mut terms, lower, "defend", "defense", "block", "protection");
    add_terms(&mut terms, lower, "points", "score", "scoring", "victory points");
    add_terms(&mut terms, lower, "cards", "hand", "deck", "draw");
    add_terms(&mut terms, lower, "dice", "roll", "rolling", "die");
    add_terms(&mut terms, lower, "setup", "preparation", "initial setup", "game setup");
    add_terms(&mut terms, lower, "end", "finish", "conclusion", "game over");
    terms
}

/// The words of a rule book for what `query` speaks of: three for each of
/// the concepts win, lose, turn, move, attack, defend, points, cards, dice,
/// setup and end that `query` names, in this order. `query` is read as it
/// is: a caller that wants capitals to count hands it over in lower case.
pub fn extract_game_terms(query: &str) -> (terms: Vec<String>)
    ensures
        string_views(terms@) == game_terms(query@),
{
    let chars = chars_of(query);
    let terms = game_terms_of(chars.as_slice());
    strings_of(&terms)
}

fn prefixed(prefix: &str, rest: &[char]) -> (out: Vec<char>)
    ensures
        out@ == prefix@ + rest@,
{
    let mut out: Vec<char> = Vec::new();
    push_str(&mut out, prefix);
    push_all(&mut out, rest);
    assert(out@ =~= prefix@ + rest@);
    out
}

fn strip_either<'a>(lower: &'a [char], first: &str, second: &str) -> (rest: &'a [char])
    ensures
        rest@ == without_either(lower@, first@, second@),
{
    match strip_prefix_str(lower, first) {
        Some(rest) => rest,
        None => match strip_prefix_str(lower, second) {
            Some(rest) => rest,
            None => lower,
        },
    }
}

/// The statement forms of a question, given in lower case.
pub fn statement_forms_of(lower: &[char]) -> (forms: Vec<Vec<char>>)
    ensures
        views_of(forms@) == statement_forms(lower@),
{
    let mut forms: Vec<Vec<char>> = Vec::new();
    if has_prefix_str(lower, "how do i") || has_prefix_str(lower, "how to") {
        let rest = strip_either(lower, "how do i ", "how to ");
        forms.push(copy_chars(rest));
        forms.push(prefixed("rules for ", rest));
        forms.push(prefixed("instructions ", rest));
    } else if has_prefix_str(lower, "what") {
        if has_infix_str(lower, "happens") {
            forms.push(replace_all_str(lower, "what happens", "when"));
            forms.push(replace_all_str(lower, "what happens", "rules"));
        } else if has_infix_str(lower, "can i") || has_infix_str(lower, "may i") {
            forms.push(replace_all_str(lower, "what can i", "player may"));
            forms.push(replace_all_str(lower, "what may i", "player may"));
            forms.push(chars_of("allowed actions"));
        } else {
            forms.push(copy_chars(lower));
        }
    } else if has_prefix_str(lower, "when") {
        forms.push(copy_chars(lower));
        forms.push(replace_all_str(lower, "when", "if"));
        forms.push(chars_of("timing rules"));
    } else if has_prefix_str(lower, "can i") || has_prefix_str(lower, "may i") {
        let rest = strip_either(lower, "can i ", "may i ");
        forms.push(prefixed("player may ", rest));
        forms.push(prefixed("allowed to ", rest));
        forms.push(copy_chars(rest));
    } else {
        forms.push(copy_chars(lower));
    }
    assert(views_of(forms@) =~= statement_forms(lower@));
    forms
}

/// The question followed by its statement forms and its game terms, where
/// `lower` is the question in lower case.
pub fn enhance_lowered(query: &[char], lower: &[char]) -> (out: Vec<char>)
    ensures
        out@ == enhanced_query(query@, lower@),
{
    let mut parts = statement_forms_of(lower);
    let mut terms = game_terms_of(lower);
    let ghost forms = views_of(parts@);
    parts.append(&mut terms);
    assert(views_of(parts@) =~= forms + game_terms(lower@));
    let tail = join_parts(&parts);
    let mut out = copy_chars(query);
    out.push(' ');
    push_all(&mut out, tail.as_slice());
    assert(out@ =~= enhanced_query(query@, lower@));
    out
}

/// The question with what helps to find its answer in a rule book: the
/// question as it is, then its statement forms, then the words of a rule
/// book for what it speaks of, a space between each two. Capitals in the
/// question do not matter for what is added.
pub fn enhance_search_query(query: &str) -> (out: String)
    ensures
        out@ == enhanced_query(query@, lowercase(query@)),
{
    let chars = chars_of(query);
    let lower = to_lowercase(chars.as_slice());
    let enhanced = enhance_lowered(chars.as_slice(), lower.as_slice());
    string_of(enhanced.as_slice())
}

// ---------------------------------------------------------------------------
// What the language model is told
// ---------------------------------------------------------------------------

/// Messages of a session, counted from its end, that the language model
/// is shown.
pub const HISTORY_MESSAGES: usize = 6;

/// The chunks as lines of context, each marked as a rule.
pub open spec fn rule_lines(chunks: Seq<Seq<char>>) -> Seq<Seq<char>> {
    Seq::new(chunks.len(), |i: int| "Rule: "@ + chunks[i])
}

/// The rules that the language model is given to answer from: each chunk on
/// its own, marked as a rule, with an empty line between two; or a remark
/// that there are none.
pub open spec fn context_text(chunks: Seq<Seq<char>>) -> Seq<char> {
    if chunks.len() == 0 {
        "No specific rules found for this question."@
    } else {
        joined_with(rule_lines(chunks), "\n\n"@)
    }
}

/// The rules that the language model is given to answer from.
pub fn build_context_text(chunks: &[String]) -> (out: String)
    ensures
        out@ == context_text(string_views(chunks@)),
{
    if chunks.len() == 0 {
        return "No specific rules found for this question.".to_owned();
    }
    let mut lines: Vec<Vec<char>> = Vec::new();
    let mut i: usize = 0;
    while i < chunks.len()
        invariant
            i <= chunks.len(),
            lines@.len() == i,
            forall|k: int| 0 <= k < i ==> (#[trigger] lines@[k])@ == "Rule: "@ + chunks@[k]@,
        decreases chunks.len() - i,
    {
        let mut line: Vec<char> = Vec::new();
        push_str(&mut line, "Rule: ");
        push_str(&mut line, chunks[i].as_str());
        assert(line@ =~= "Rule: "@ + chunks@[i as int]@);
        lines.push(line);
        i += 1;
    }
    assert(views_of(lines@) =~= rule_lines(string_views(chunks@)));
    let text = join_with(&lines, "\n\n");
    string_of(text.as_slice())
}

/// The index of the first message that the language model is shown.
pub open spec fn history_start(count: int) -> int {
    if count > HISTORY_MESSAGES as int {
        count - HISTORY_MESSAGES as int
    } else {
        0
    }
}

/// The last messages of a session, each as its role, a colon and its
/// content.
pub open spec fn history_lines(messages: Seq<LLMMessage>) -> Seq<Seq<char>> {
    Seq::new(
        (messages.len() - history_start(messages.len() as int)) as nat,
        |i: int|
            messages[history_start(messages.len() as int) + i].role@ + ": "@ + messages[history_start(
                messages.len() as int,
            ) + i].content@,
    )
}

/// What the language model is shown of a session: its last
/// `HISTORY_MESSAGES` messages, oldest first, one to a line.
pub open spec fn history_text(messages: Seq<LLMMessage>) -> Seq<char> {
    joined_with(history_lines(messages), "\n"@)
}

/// What the language model is shown of a session.
pub fn recent_history(messages: &[LLMMessage]) -> (out: String)
    ensures
        out@ == history_text(messages@),
{
    let n = messages.len();
    let start = if n > HISTORY_MESSAGES {
        n - HISTORY_MESSAGES
    } else {
        0
    };
    let mut lines: Vec<Vec<char>> = Vec::new();
    let mut i: usize = start;
    while i < n
        invariant
            start <= i <= n,
            n == messages@.len(),
            start == history_start(n as int),
            lines@.len() == i - start,
            forall|k: int|
                0 <= k < i - start ==> (#[trigger] lines@[k])@ == messages@[start + k].role@ + ": "@
                    + messages@[start + k].content@,
        decreases n - i,
    {
        let mut line: Vec<char> = Vec::new();
        push_str(&mut line, messages[i].role.as_str());
        push_str(&mut line, ": ");
        push_str(&mut line, messages[i].content.as_str());
        assert(line@ =~= messages@[i as int].role@ + ": "@ + messages@[i as int].content@);
        lines.push(line);
        i += 1;
    }
    assert(views_of(lines@) =~= history_lines(messages@));
    let text = join_with(&lines, "\n");
    string_of(text.as_slice())
}

/// The instructions of the language model for a question on the rules of a
/// game, with the rules found for it and what was said before.
pub open spec fn system_prompt_text(context: Seq<char>, history: Seq<char>) -> Seq<char> {
    "You are a helpful assistant that explains board game rules. Use the following game rules to answer questions accurately and clearly. If the rules don't contain enough information to answer the question, say so honestly.\n\nGame Rules Context:\n"@
        + context + "\n\nConversation History:\n"@ + history
        + "\n\nInstructions:\n- Answer based on the provided rules context\n- Be concise but thorough\n- If rules are unclear or missing, acknowledge this\n- Use examples when helpful\n- Focus on practical gameplay guidance"@
}

/// The instructions of the language model for a question on the rules of a
/// game.
pub fn system_prompt(context: &str, history: &str) -> (out: String)
    ensures
        out@ == system_prompt_text(context@, history@),
{
    let mut buf: Vec<char> = Vec::new();
    push_str(
        &mut buf,
        "You are a helpful assistant that explains board game rules. Use the following game rules to answer questions accurately and clearly. If the rules don't contain enough information to answer the question, say so honestly.\n\nGame Rules Context:\n",
    );
    push_str(&mut buf, context);
    push_str(&mut buf, "\n\nConversation History:\n");
    push_str(&mut buf, history);
    push_str(
        &mut buf,
        "\n\nInstructions:\n- Answer based on the provided rules context\n- Be concise but thorough\n- If rules are unclear or missing, acknowledge this\n- Use examples when helpful\n- Focus on practical gameplay guidance",
    );
    assert(buf@ =~= system_prompt_text(context@, history@));
    string_of(buf.as_slice())
}

// ---------------------------------------------------------------------------
// Results that say the same
// ---------------------------------------------------------------------------

/// Fewest bytes of a word that counts when two texts are held against each
/// other. The length of a word is that of its UTF-8 form, so a word of
/// fewer characters counts where they lie beyond ASCII.
pub const WORD_MIN: usize = 4;

/// The number of bytes of `c` in UTF-8.
pub open spec fn utf8_len(c: char) -> int {
    let n = c as u32;
    if n < 0x80 {
        1
    } else if n < 0x800 {
        2
    } else if n < 0x1_0000 {
        3
    } else {
        4
    }
}

/// The number of bytes of `s` in UTF-8.
pub open spec fn utf8_size(s: Seq<char>) -> int
    decreases s.len(),
{
    if s.len() == 0 {
        0
    } else {
        utf8_size(s.drop_last()) + utf8_len(s.last())
    }
}

/// Whether a word is long enough to count.
pub open spec fn counts(word: Seq<char>) -> bool {
    utf8_size(word) >= WORD_MIN as int
}

proof fn lemma_utf8_size_grows(s: Seq<char>, k: int)
    requires
        0 <= k <= s.len(),
    ensures
        0 <= utf8_size(s.take(k)) <= utf8_size(s),
    decreases s.len(),
{
    if k == s.len() {
        assert(s.take(k) =~= s);
        if k > 0 {
            lemma_utf8_size_grows(s.drop_last(), k - 1);
            assert(s.drop_last().take(k - 1) =~= s.drop_last());
        }
    } else {
        lemma_utf8_size_grows(s.drop_last(), k);
        assert(s.drop_last().take(k) =~= s.take(k));
    }
}

/// Whether a word is long enough to count.
pub fn is_long_word(word: &[char]) -> (r: bool)
    ensures
        r == counts(word@),
{
    let mut size: usize = 0;
    let mut k: usize = 0;
    while k < word.len()
        invariant
            k <= word.len(),
            size == utf8_size(word@.take(k as int)),
            size < WORD_MIN,
        decreases word.len() - k,
    {
        let n: u32 = word[k] as u32;
        let len: usize = if n < 0x80 {
            1
        } else if n < 0x800 {
            2
        } else if n < 0x1_0000 {
            3
        } else {
            4
        };
        assert(word@.take(k + 1).drop_last() =~= word@.take(k as int));
        size += len;
        k += 1;
        if size >= WORD_MIN {
            proof {
                lemma_utf8_size_grows(word@, k as int);
            }
            return true;
        }
    }
    assert(word@.take(k as int) =~= word@);
    false
}

/// The first index at or after `i` that holds whitespace, or the length.
pub open spec fn word_end(s: Seq<char>, i: int) -> int
    decreases s.len() - i,
{
    if 0 <= i < s.len() && !is_space(s[i]) {
        word_end(s, i + 1)
    } else {
        i
    }
}

pub proof fn lemma_word_end(s: Seq<char>, i: int)
    requires
        0 <= i <= s.len(),
    ensures
        i <= word_end(s, i) <= s.len(),
        i < s.len() && !is_space(s[i]) ==> i < word_end(s, i),
    decreases s.len() - i,
{
    if i < s.len() && !is_space(s[i]) {
        lemma_word_end(s, i + 1);
    }
}

/// The words of `s` from index `i` on that are long enough to count, in
/// order. A word is a longest run without whitespace.
pub open spec fn long_words_from(s: Seq<char>, i: int) -> Seq<Seq<char>>
    decreases s.len() - i,
{
    if i < 0 || i >= s.len() {
        Seq::empty()
    } else if is_space(s[i]) {
        long_words_from(s, i + 1)
    } else {
        let e = word_end(s, i);
        proof {
            lemma_word_end(s, i);
        }
        if counts(s.subrange(i, e)) {
            seq![s.subrange(i, e)] + long_words_from(s, e)
        } else {
            long_words_from(s, e)
        }
    }
}

/// The elements among the first `upto` of `words`, each once, in the order
/// in which they first occur.
pub open spec fn distinct_among(words: Seq<Seq<char>>, upto: int) -> Seq<Seq<char>>
    decreases upto,
{
    if upto <= 0 {
        Seq::empty()
    } else if distinct_among(words, upto - 1).contains(words[upto - 1]) {
        distinct_among(words, upto - 1)
    } else {
        distinct_among(words, upto - 1).push(words[upto - 1])
    }
}

/// The words of a text that count, each once.
pub open spec fn word_set(text: Seq<char>) -> Seq<Seq<char>> {
    distinct_among(long_words_from(text, 0), long_words_from(text, 0).len() as int)
}

/// How many of the first `upto` elements of `a` occur in `b`.
pub open spec fn common_among(a: Seq<Seq<char>>, b: Seq<Seq<char>>, upto: int) -> nat
    decreases upto,
{
    if upto <= 0 {
        0
    } else if b.contains(a[upto - 1]) {
        common_among(a, b, upto - 1) + 1
    } else {
        common_among(a, b, upto - 1)
    }
}

/// Whether two texts say the same: both hold words that count, and of all
/// such words of the two more than four in five occur in both.
pub open spec fn same_content(first: Seq<char>, second: Seq<char>) -> bool {
    let a = word_set(first);
    let b = word_set(second);
    let both = common_among(a, b, a.len() as int);
    a.len() > 0 && b.len() > 0 && 5 * both > 4 * (a.len() + b.len() - both)
}

fn holds(list: &Vec<Vec<char>>, word: &[char]) -> (r: bool)
    ensures
        r == views_of(list@).contains(word@),
{
    let mut k: usize = 0;
    while k < list.len()
        invariant
            k <= list.len(),
            forall|j: int| 0 <= j < k ==> views_of(list@)[j] != word@,
        decreases list.len() - k,
    {
        if same_chars(list[k].as_slice(), word) {
            assert(views_of(list@)[k as int] == word@);
            return true;
        }
        k += 1;
    }
    false
}

/// The words of `text` that count, in order.
pub fn long_words(text: &[char]) -> (words: Vec<Vec<char>>)
    ensures
        views_of(words@) == long_words_from(text@, 0),
{
    let n = text.len();
    let mut words: Vec<Vec<char>> = Vec::new();
    let mut i: usize = 0;
    assert(views_of(words@) + long_words_from(text@, 0) =~= long_words_from(text@, 0));
    while i < n
        invariant
            n == text@.len(),
            i <= n,
            views_of(words@) + long_words_from(text@, i as int) == long_words_from(text@, 0),
        decreases n - i,
    {
        if is_whitespace(text[i]) {
            i += 1;
        } else {
            let mut e: usize = i;
            while e < n && !is_whitespace(text[e])
                invariant
                    n == text@.len(),
                    i <= e <= n,
                    word_end(text@, e as int) == word_end(text@, i as int),
                decreases n - e,
            {
                e += 1;
            }
            proof {
                lemma_word_end(text@, i as int);
            }
            let ghost before = views_of(words@);
            let ghost rest = long_words_from(text@, e as int);
            if is_long_word(&text[i..e]) {
                words.push(copy_chars(&text[i..e]));
                assert(views_of(words@) + rest =~= before + (seq![text@.subrange(i as int, e as int)]
                    + rest));
            }
            i = e;
        }
    }
    assert(views_of(words@) + Seq::<Seq<char>>::empty() =~= views_of(words@));
    words
}

/// The elements of `words`, each once.
pub fn distinct(words: &Vec<Vec<char>>) -> (out: Vec<Vec<char>>)
    ensures
        views_of(out@) == distinct_among(views_of(words@), words@.len() as int),
{
    let mut out: Vec<Vec<char>> = Vec::new();
    let mut i: usize = 0;
    assert(views_of(out@) =~= Seq::<Seq<char>>::empty());
    while i < words.len()
        invariant
            i <= words.len(),
            views_of(out@) == distinct_among(views_of(words@), i as int),
        decreases words.len() - i,
    {
        let ghost before = views_of(out@);
        assert(views_of(words@)[i as int] == words@[i as int]@);
        if !holds(&out, words[i].as_slice()) {
            out.push(copy_chars(words[i].as_slice()));
            assert(views_of(out@) =~= before.push(words@[i as int]@));
        }
        i += 1;
    }
    out
}

/// Whether two texts say the same.
pub fn text_similarity(text1: &str, text2: &str) -> (same: bool)
    ensures
        same == same_content(text1@, text2@),
{
    let first = chars_of(text1);
    let second = chars_of(text2);
    let a = distinct(&long_words(first.as_slice()));
    let b = distinct(&long_words(second.as_slice()));
    if a.len() == 0 || b.len() == 0 {
        return false;
    }
    let mut both: usize = 0;
    let mut k: usize = 0;
    while k < a.len()
        invariant
            k <= a.len(),
            both <= k,
            both == common_among(views_of(a@), views_of(b@), k as int),
        decreases a.len() - k,
    {
        assert(views_of(a@)[k as int] == a@[k as int]@);
        if holds(&b, a[k].as_slice()) {
            both += 1;
        }
        k += 1;
    }
    // more than four in five: 5 * both > 4 * (a + b - both), that is 9 * both > 4 * (a + b)
    let left: u128 = 9 * (both as u128);
    let right: u128 = 4 * (a.len() as u128 + b.len() as u128);
    left > right
}

/// A result of a search as far as it matters for thinning: how similar it
/// is to the question, where it comes from, and what it says.
#[derive(Debug)]
pub struct RankedText {
    pub score: i64,
    pub source_type: EmbeddingSourceType,
    pub chunk_text: String,
}

/// Whether result `i` repeats one of the results at the places `kept`: one
/// of the same source that says the same.
pub open spec fn repeats(results: Seq<RankedText>, kept: Seq<usize>, i: int) -> bool {
    exists|k: int|
        0 <= k < kept.len() && (#[trigger] results[kept[k] as int]).source_type
            == results[i].source_type && same_content(
            results[kept[k] as int].chunk_text@,
            results[i].chunk_text@,
        )
}

/// The places that are kept of the first `upto` places of `order`: each one
/// unless `limit` places are kept already or its result repeats one that is
/// kept.
pub open spec fn thinned(results: Seq<RankedText>, order: Seq<usize>, limit: int, upto: int) -> Seq<
    usize,
>
    decreases upto,
{
    if upto <= 0 {
        Seq::empty()
    } else {
        let kept = thinned(results, order, limit, upto - 1);
        if kept.len() >= limit || repeats(results, kept, order[upto - 1] as int) {
            kept
        } else {
            kept.push(order[upto - 1])
        }
    }
}

/// The scores of the results, in order.
pub open spec fn scores_of(results: Seq<RankedText>) -> Seq<i64> {
    Seq::new(results.len(), |i: int| results[i].score)
}

/// The places of `order` that are kept when results that repeat a kept one
/// are left out and at most `limit` are kept.
pub fn thin_out(results: &[RankedText], order: &Vec<usize>, limit: usize) -> (kept: Vec<usize>)
    requires
        forall|k: int| 0 <= k < order@.len() ==> (#[trigger] order@[k]) < results@.len(),
    ensures
        kept@ == thinned(results@, order@, limit as int, order@.len() as int),
        kept@.len() <= limit,
{
    let mut kept: Vec<usize> = Vec::new();
    let mut i: usize = 0;
    while i < order.len()
        invariant
            i <= order.len(),
            forall|k: int| 0 <= k < order@.len() ==> (#[trigger] order@[k]) < results@.len(),
            forall|k: int| 0 <= k < kept@.len() ==> (#[trigger] kept@[k]) < results@.len(),
            kept@ == thinned(results@, order@, limit as int, i as int),
            kept@.len() <= limit,
        decreases order.len() - i,
    {
        let at = order[i];
        if kept.len() < limit {
            let mut repeat = false;
            let mut k: usize = 0;
            while k < kept.len() && !repeat
                invariant
                    k <= kept@.len(),
                    at < results@.len(),
                    forall|j: int| 0 <= j < kept@.len() ==> (#[trigger] kept@[j]) < results@.len(),
                    repeat ==> repeats(results@, kept@, at as int),
                    !repeat ==> forall|j: int|
                        0 <= j < k ==> !((#[trigger] results@[kept@[j] as int]).source_type
                            == results@[at as int].source_type && same_content(
                            results@[kept@[j] as int].chunk_text@,
                            results@[at as int].chunk_text@,
                        )),
                decreases kept@.len() - k + if repeat { 0int } else { 1int },
            {
                let other = &results[kept[k]];
                let this = &results[at];
                if other.source_type == this.source_type && text_similarity(
                    other.chunk_text.as_str(),
                    this.chunk_text.as_str(),
                ) {
                    repeat = true;
                } else {
                    k += 1;
                }
            }
            if !repeat {
                kept.push(at);
            }
        }
        i += 1;
    }
    kept
}

/// The results that are shown: the results by falling similarity, those of
/// equal similarity in the order in which they came, without those that
/// repeat a result shown before them, and at most `limit` of them. The
/// places of the results are returned.
pub fn enhance_search_results(results: &[RankedText], limit: usize) -> (kept: Vec<usize>)
    ensures
        kept@.len() <= limit,
        exists|order: Seq<usize>|
            is_ranking(scores_of(results@), i64::MIN, results@.len() as int, order) && kept@
                == thinned(results@, order, limit as int, order.len() as int),
{
    let mut scores: Vec<i64> = Vec::new();
    let mut i: usize = 0;
    while i < results.len()
        invariant
            i <= results.len(),
            scores@.len() == i,
            forall|k: int| 0 <= k < i ==> #[trigger] scores@[k] == results@[k].score,
        decreases results.len() - i,
    {
        scores.push(results[i].score);
        i += 1;
    }
    assert(scores@ =~= scores_of(results@));
    let order = rank_by_score(scores.as_slice(), i64::MIN, results.len());
    assert forall|k: int| 0 <= k < order@.len() implies (#[trigger] order@[k]) < results@.len() by {
        assert(crate::db::embeddings::qualifies(scores@, i64::MIN, order@[k] as int));
    }
    thin_out(results, &order, limit)
}

// ---------------------------------------------------------------------------
// A short look at a chunk
// ---------------------------------------------------------------------------

/// Most characters of a look at a chunk that holds no sentence.
pub const PLAIN_PREVIEW: usize = 150;

/// Most characters of a look at a chunk that holds sentences.
pub const SENTENCE_PREVIEW: usize = 200;

/// Sentences that a look at a chunk shows, at most.
pub const PREVIEW_SENTENCES: usize = 2;

/// `.`, `!` or `?`.
pub open spec fn ends_piece(c: char) -> bool {
    c == '.' || c == '!' || c == '?'
}

/// The first index at or after `i` that holds `.`, `!` or `?`, or the
/// length.
pub open spec fn piece_end(s: Seq<char>, i: int) -> int
    decreases s.len() - i,
{
    if 0 <= i < s.len() && !ends_piece(s[i]) {
        piece_end(s, i + 1)
    } else {
        i
    }
}

pub proof fn lemma_piece_end(s: Seq<char>, i: int)
    requires
        0 <= i <= s.len(),
    ensures
        i <= piece_end(s, i) <= s.len(),
    decreases s.len() - i,
{
    if i < s.len() && !ends_piece(s[i]) {
        lemma_piece_end(s, i + 1);
    }
}

/// The pieces of `s` between `.`, `!` and `?` from index `i` on, each
/// without the whitespace around it, that have more than ten characters, in
/// order.
pub open spec fn pieces_from(s: Seq<char>, i: int) -> Seq<Seq<char>>
    decreases s.len() - i,
{
    if i < 0 || i >= s.len() {
        Seq::empty()
    } else {
        let e = piece_end(s, i);
        proof {
            lemma_piece_end(s, i);
        }
        let piece = trim(s.subrange(i, e));
        let rest = if e < s.len() {
            pieces_from(s, e + 1)
        } else {
            Seq::empty()
        };
        if piece.len() > 10 {
            seq![piece] + rest
        } else {
            rest
        }
    }
}

/// The first `n` characters of `s` followed by three dots.
pub open spec fn cut_short(s: Seq<char>, n: int) -> Seq<char> {
    s.take(n) + "..."@
}

/// A short look at a chunk, given the pieces of it that count as sentences:
/// the first two of them, a full stop and a space between them and a full
/// stop after them, cut to 197 characters and three dots if that has more
/// than 200; or, where there is none, the chunk itself, cut to 147
/// characters and three dots if it has more than 150.
pub open spec fn preview_of(text: Seq<char>, pieces: Seq<Seq<char>>) -> Seq<char> {
    if pieces.len() == 0 {
        if text.len() > PLAIN_PREVIEW as int {
            cut_short(text, PLAIN_PREVIEW as int - 3)
        } else {
            text
        }
    } else {
        let shown = if pieces.len() > PREVIEW_SENTENCES as int {
            pieces.take(PREVIEW_SENTENCES as int)
        } else {
            pieces
        };
        let preview = joined_with(shown, ". "@);
        if preview.len() > SENTENCE_PREVIEW as int {
            cut_short(preview, SENTENCE_PREVIEW as int - 3)
        } else {
            preview + "."@
        }
    }
}

/// The pieces of `text` that count as sentences.
pub fn sentence_pieces(text: &[char]) -> (pieces: Vec<Vec<char>>)
    ensures
        views_of(pieces@) == pieces_from(text@, 0),
{
    let n = text.len();
    let mut pieces: Vec<Vec<char>> = Vec::new();
    let mut i: usize = 0;
    assert(views_of(pieces@) + pieces_from(text@, 0) =~= pieces_from(text@, 0));
    while i < n
        invariant
            n == text@.len(),
            i <= n,
            views_of(pieces@) + pieces_from(text@, i as int) == pieces_from(text@, 0),
        decreases n - i,
    {
        let mut e: usize = i;
        while e < n && !(text[e] == '.' || text[e] == '!' || text[e] == '?')
            invariant
                n == text@.len(),
                i <= e <= n,
                piece_end(text@, e as int) == piece_end(text@, i as int),
            decreases n - e,
        {
            e += 1;
        }
        let piece = trim_slice(&text[i..e]);
        let ghost before = views_of(pieces@);
        let ghost rest = if e < n {
            pieces_from(text@, e + 1)
        } else {
            Seq::empty()
        };
        if piece.len() > 10 {
            pieces.push(copy_chars(piece));
            assert(views_of(pieces@) + rest =~= before + (seq![piece@] + rest));
        }
        if e < n {
            i = e + 1;
        } else {
            i = n;
        }
    }
    assert(views_of(pieces@) + Seq::<Seq<char>>::empty() =~= views_of(pieces@));
    pieces
}

fn first_chars(text: &[char], n: usize) -> (out: Vec<char>)
    requires
        n <= text.len(),
    ensures
        out@ == cut_short(text@, n as int),
{
    let mut out = copy_chars(&text[0..n]);
    push_str(&mut out, "...");
    assert(text@.subrange(0, n as int) =~= text@.take(n as int));
    out
}

/// A short look at a chunk: its first two sentences, or its beginning.
pub fn create_context_preview(chunk_text: &str) -> (out: String)
    ensures
        out@ == preview_of(chunk_text@, pieces_from(chunk_text@, 0)),
{
    let text = chars_of(chunk_text);
    let mut pieces = sentence_pieces(text.as_slice());
    if pieces.len() == 0 {
        if text.len() > PLAIN_PREVIEW {
            let cut = first_chars(text.as_slice(), PLAIN_PREVIEW - 3);
            return string_of(cut.as_slice());
        } else {
            return string_of(text.as_slice());
        }
    }
    let ghost all = views_of(pieces@);
    if pieces.len() > PREVIEW_SENTENCES {
        pieces.truncate(PREVIEW_SENTENCES);
        assert(views_of(pieces@) =~= all.take(PREVIEW_SENTENCES as int));
    }
    let mut preview = join_with(&pieces, ". ");
    if preview.len() > SENTENCE_PREVIEW {
        let cut = first_chars(preview.as_slice(), SENTENCE_PREVIEW - 3);
        string_of(cut.as_slice())
    } else {
        push_str(&mut preview, ".");
        string_of(preview.as_slice())
    }
}

} // verus!
