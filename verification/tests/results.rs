use std::collections::HashSet;
use tabletop_atlas::db::embeddings::score_key;
use tabletop_atlas::handlers::chat::{
    create_context_preview, distinct, enhance_search_results, long_words, text_similarity,
    thin_out, RankedText,
};
use tabletop_atlas::handlers::games::{check_game_name, check_new_game_name, EMPTY_NAME};
use tabletop_atlas::handlers::house_rules::{
    check_house_rule, check_house_rule_update, columns_to_change, HouseRuleFault,
};
use tabletop_atlas::handlers::upload::chunk_records;
use tabletop_atlas::handlers::{is_blank_text, parse_id};
use tabletop_atlas::models::embedding::EmbeddingSourceType;
use tabletop_atlas::models::house_rule::UpdateHouseRuleRequest;

fn chars(s: &str) -> Vec<char> {
    s.chars().collect()
}

fn words(list: Vec<Vec<char>>) -> Vec<String> {
    list.into_iter().map(|w| w.into_iter().collect()).collect()
}

#[test]
fn long_words_are_the_words_of_four_bytes_and_more() {
    assert_eq!(
        words(long_words(&chars("  the quick  brown fox\tjumps over\nthem "))),
        vec!["quick", "brown", "jumps", "over", "them"]
    );
    assert!(long_words(&chars("")).is_empty());
    assert!(long_words(&chars("a bc def")).is_empty());
    assert_eq!(words(distinct(&long_words(&chars("over and over again over")))), vec!["over", "again"]);
}

fn jaccard_above_four_fifths(a: &str, b: &str) -> bool {
    let wa: HashSet<&str> = a.split_whitespace().filter(|w| w.len() > 3).collect();
    let wb: HashSet<&str> = b.split_whitespace().filter(|w| w.len() > 3).collect();
    if wa.is_empty() || wb.is_empty() {
        return false;
    }
    let inter = wa.intersection(&wb).count();
    let union = wa.union(&wb).count();
    5 * inter > 4 * union
}

#[test]
fn texts_say_the_same_when_most_words_are_shared() {
    let cases = [
        ("roll both dice then move your piece", "roll both dice then move your piece"),
        ("roll both dice then move your piece", "roll both dice then move your token"),
        ("alpha beta gamma delta epsilon zeta", "alpha beta gamma delta epsilon"),
        ("alpha beta gamma delta epsilon", "alpha beta gamma delta"),
        ("alpha beta gamma delta", "alpha beta gamma delta alpha beta"),
        ("same same same same", "same"),
        ("", ""),
        ("a b c", "a b c"),
        ("word", ""),
        ("completely different words here", "nothing shared between those"),
    ];
    for (a, b) in cases {
        assert_eq!(text_similarity(a, b), jaccard_above_four_fifths(a, b), "{:?} {:?}", a, b);
        assert_eq!(text_similarity(a, b), text_similarity(b, a));
    }
    assert!(text_similarity("alpha beta gamma delta epsilon zeta", "alpha beta gamma delta epsilon"));
    assert!(!text_similarity("alpha beta gamma delta epsilon", "alpha beta gamma delta"));
    assert!(!text_similarity("a b c", "a b c"));
}

fn ranked(score: f64, source_type: EmbeddingSourceType, text: &str) -> RankedText {
    RankedText { score: score_key(score.to_bits()), source_type, chunk_text: text.to_string() }
}

#[test]
fn results_are_ranked_and_thinned() {
    let pdf = EmbeddingSourceType::RulesPdf;
    let house = EmbeddingSourceType::HouseRule;
    let results = vec![
        ranked(0.4, pdf, "players draw cards until their hand holds seven"),
        ranked(0.9, pdf, "roll both dice then move your piece forward"),
        ranked(0.8, pdf, "roll both dice then move your piece forward"),
        ranked(0.7, house, "roll both dice then move your piece forward"),
        ranked(0.9, pdf, "victory goes with whoever reaches fifty points"),
    ];
    assert_eq!(enhance_search_results(&results, 10), vec![1, 4, 3, 0]);
    assert_eq!(enhance_search_results(&results, 2), vec![1, 4]);
    assert_eq!(enhance_search_results(&results, 3), vec![1, 4, 3]);
    assert_eq!(enhance_search_results(&results, 0), Vec::<usize>::new());
    assert_eq!(enhance_search_results(&[], 5), Vec::<usize>::new());
    assert_eq!(thin_out(&results, &vec![2, 1, 0], 5), vec![2, 0]);
    assert_eq!(thin_out(&results, &vec![], 5), Vec::<usize>::new());
}

#[test]
fn preview_shows_two_sentences() {
    assert_eq!(
        create_context_preview("Each player draws five cards. Then the youngest player begins! Play goes on clockwise."),
        "Each player draws five cards. Then the youngest player begins."
    );
    assert_eq!(
        create_context_preview("Only one real sentence here. Ok."),
        "Only one real sentence here."
    );
    assert_eq!(create_context_preview("Short. Tiny! No?"), "Short. Tiny! No?");
    assert_eq!(create_context_preview(""), "");
}

#[test]
fn preview_is_cut_when_it_is_long() {
    let long_piece = "x".repeat(300);
    let preview = create_context_preview(&format!("{}. More text follows here.", long_piece));
    assert_eq!(preview, format!("{}...", "x".repeat(197)));
    assert_eq!(preview.len(), 200);
    let no_sentence = "ab. ".repeat(50);
    let plain = create_context_preview(&no_sentence);
    assert_eq!(plain, format!("{}...", &no_sentence[..147]));
    assert_eq!(plain.len(), 150);
    let exactly = "ab. ".repeat(37) + "ab";
    assert_eq!(exactly.len(), 150);
    assert_eq!(create_context_preview(&exactly), exactly);
    let two = format!("{}. {}.", "a".repeat(99), "b".repeat(99));
    assert_eq!(create_context_preview(&two), two);
    let over = format!("{}. {}.", "a".repeat(100), "b".repeat(99));
    assert_eq!(create_context_preview(&over), format!("{}. {}...", "a".repeat(100), "b".repeat(95)));
}

#[test]
fn ids_are_read_as_the_standard_library_reads_them() {
    for text in [
        "0",
        "7",
        "-7",
        "+7",
        "007",
        "-0",
        "123456789",
        "9223372036854775807",
        "9223372036854775808",
        "-9223372036854775808",
        "-9223372036854775809",
        "18446744073709551616",
        "99999999999999999999999999",
        "000000000000000000000000000000000001",
        "",
        "-",
        "+",
        "--1",
        "+-1",
        "1-",
        " 1",
        "1 ",
        "12a",
        "a12",
        "1.5",
        "٣",
    ] {
        assert_eq!(parse_id(text), text.parse::<i64>().ok(), "{:?}", text);
    }
}

#[test]
fn blank_texts_hold_only_whitespace() {
    assert!(is_blank_text(""));
    assert!(is_blank_text(" \t\n\u{a0}"));
    assert!(!is_blank_text(" x "));
}

#[test]
fn names_and_rules_must_not_be_blank() {
    assert_eq!(check_game_name("Catan"), Ok(()));
    assert_eq!(check_game_name("   "), Err(EMPTY_NAME));
    assert_eq!(check_game_name(""), Err("Game name cannot be empty"));
    assert_eq!(check_new_game_name(&None), Ok(()));
    assert_eq!(check_new_game_name(&Some(" ".to_string())), Err(EMPTY_NAME));
    assert_eq!(check_new_game_name(&Some("Go".to_string())), Ok(()));
    assert_eq!(check_house_rule("t", "d"), Ok(()));
    assert_eq!(check_house_rule(" ", "d"), Err(HouseRuleFault::EmptyTitle));
    assert_eq!(check_house_rule("t", "\n"), Err(HouseRuleFault::EmptyDescription));
    assert_eq!(check_house_rule("", ""), Err(HouseRuleFault::EmptyTitle));
    assert_eq!(HouseRuleFault::EmptyTitle.message(), "House rule title cannot be empty");
    assert_eq!(
        HouseRuleFault::EmptyDescription.message(),
        "House rule description cannot be empty"
    );
}

fn update(title: Option<&str>, description: Option<&str>, category: Option<&str>, is_active: Option<bool>) -> UpdateHouseRuleRequest {
    UpdateHouseRuleRequest {
        title: title.map(|s| s.to_string()),
        description: description.map(|s| s.to_string()),
        category: category.map(|s| s.to_string()),
        is_active,
    }
}

#[test]
fn changes_to_house_rules_look_at_what_is_given() {
    assert_eq!(check_house_rule_update(&update(None, None, None, None)), Ok(()));
    assert_eq!(check_house_rule_update(&update(Some("t"), None, None, None)), Ok(()));
    assert_eq!(
        check_house_rule_update(&update(Some(" "), Some(" "), None, None)),
        Err(HouseRuleFault::EmptyTitle)
    );
    assert_eq!(
        check_house_rule_update(&update(None, Some(""), None, None)),
        Err(HouseRuleFault::EmptyDescription)
    );
    assert_eq!(columns_to_change(&update(None, None, None, None)), Vec::<&str>::new());
    assert_eq!(columns_to_change(&update(Some("t"), None, Some("c"), None)), vec!["title", "category"]);
    assert_eq!(
        columns_to_change(&update(Some("t"), Some("d"), Some("c"), Some(true))),
        vec!["title", "description", "category", "is_active"]
    );
    assert_eq!(columns_to_change(&update(None, None, None, Some(false))), vec!["is_active"]);
}

#[test]
fn chunks_are_numbered_in_their_order() {
    let chunks = vec!["first".to_string(), "second".to_string(), "third".to_string()];
    let records = chunk_records(42, &chunks);
    assert_eq!(records.len(), 3);
    for (k, record) in records.iter().enumerate() {
        assert_eq!(record.chunk_index, k as i32);
        assert_eq!(record.chunk_text, chunks[k]);
        assert_eq!(record.game_id, 42);
        assert_eq!(record.source_type, EmbeddingSourceType::RulesPdf);
        assert_eq!(record.source_id, None);
    }
    assert!(chunk_records(1, &[]).is_empty());
}

#[test]
fn text_similarity_measures_words_in_bytes() {
    // three letters, three bytes: no word that counts
    assert!(!text_similarity("abc", "abc"));
    // three letters, five bytes
    assert!(text_similarity("été", "été"));
    // two letters, four bytes
    assert!(text_similarity("éé", "éé"));
    // one letter, three bytes
    assert!(!text_similarity("€", "€"));
    // one letter, four bytes
    assert!(text_similarity("𝄞", "𝄞"));
    assert!(text_similarity("bcde", "bcde"));
}
