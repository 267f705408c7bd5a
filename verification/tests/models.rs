use tabletop_atlas::db::PaginationInfo;
use tabletop_atlas::models::chat::{
    decode_context_chunks, encode_context_chunks, stored_context_chunks, stored_role, MessageRole,
};
use tabletop_atlas::models::embedding::{stored_source, EmbeddingSourceType};
use tabletop_atlas::models::house_rule::default_true;
use tabletop_atlas::models::{default_limit, default_page, PaginatedResponse};

#[test]
fn roles_are_stored_under_their_names() {
    for role in [MessageRole::User, MessageRole::Assistant, MessageRole::System] {
        assert_eq!(MessageRole::from_str(role.as_str()), Some(role));
    }
    assert_eq!(MessageRole::User.as_str(), "user");
    assert_eq!(MessageRole::Assistant.as_str(), "assistant");
    assert_eq!(MessageRole::System.as_str(), "system");
    assert_eq!(MessageRole::from_str("User"), None);
    assert_eq!(MessageRole::from_str(""), None);
    assert_eq!(stored_role("assistant"), MessageRole::Assistant);
    assert_eq!(stored_role("nobody"), MessageRole::User);
}

#[test]
fn sources_are_stored_under_their_names() {
    for source in [EmbeddingSourceType::RulesPdf, EmbeddingSourceType::HouseRule] {
        assert_eq!(EmbeddingSourceType::from_str(source.as_str()), Some(source));
    }
    assert_eq!(EmbeddingSourceType::RulesPdf.as_str(), "rules_pdf");
    assert_eq!(EmbeddingSourceType::HouseRule.as_str(), "house_rule");
    assert_eq!(EmbeddingSourceType::from_str("pdf"), None);
    assert_eq!(stored_source("house_rule"), EmbeddingSourceType::HouseRule);
    assert_eq!(stored_source("anything"), EmbeddingSourceType::RulesPdf);
}

#[test]
fn context_chunks_are_stored_as_a_list() {
    assert_eq!(encode_context_chunks(&None), None);
    assert_eq!(encode_context_chunks(&Some(vec![])), Some("[]".to_string()));
    assert_eq!(encode_context_chunks(&Some(vec![3, -1, 20])), Some("[3,-1,20]".to_string()));
    assert_eq!(decode_context_chunks(&None), None);
    assert_eq!(decode_context_chunks(&Some("[3, -1, 20]".to_string())), Some(vec![3, -1, 20]));
    assert_eq!(decode_context_chunks(&Some("[]".to_string())), Some(vec![]));
    assert_eq!(decode_context_chunks(&Some("not a list".to_string())), None);
    assert_eq!(decode_context_chunks(&Some("[1.5]".to_string())), None);
    assert_eq!(stored_context_chunks(true, None), Some("[]".to_string()));
    assert_eq!(stored_context_chunks(false, Some("[1]".to_string())), None);
    let ids = vec![i64::MIN, 0, i64::MAX];
    assert_eq!(decode_context_chunks(&encode_context_chunks(&Some(ids.clone()))), Some(ids));
}

#[test]
fn pages_are_counted_upwards() {
    let pages = |total: u32, limit: u32| PaginatedResponse::new(Vec::<u8>::new(), total, 1, limit).total_pages;
    assert_eq!(pages(0, 20), 0);
    assert_eq!(pages(1, 20), 1);
    assert_eq!(pages(20, 20), 1);
    assert_eq!(pages(21, 20), 2);
    assert_eq!(pages(u32::MAX, 1), u32::MAX);
    assert_eq!(pages(u32::MAX, u32::MAX), 1);
    assert_eq!(pages(u32::MAX, 2), 2147483648);
    assert_eq!(pages(0, 0), 0);
    assert_eq!(pages(5, 0), u32::MAX);
    for (total, limit) in [(7u32, 3u32), (100, 7), (4294967295, 65536), (999, 1000), (5, 0), (0, 0)] {
        let expected = (total as f64 / limit as f64).ceil() as u32;
        assert_eq!(pages(total, limit), expected);
    }
    let page = PaginatedResponse::new(vec![1, 2, 3], 23, 2, 10);
    assert_eq!(page.items, vec![1, 2, 3]);
    assert_eq!((page.total, page.page, page.limit, page.total_pages), (23, 2, 10, 3));
}

#[test]
fn page_offsets_start_at_zero() {
    let at = |page: u32, limit: u32| {
        let info = PaginationInfo::new(page, limit);
        (info.offset, info.limit)
    };
    assert_eq!(at(1, 20), (0, 20));
    assert_eq!(at(0, 20), (0, 20));
    assert_eq!(at(2, 20), (20, 20));
    assert_eq!(at(5, 7), (28, 7));
    assert_eq!(at(u32::MAX, 0), (0, 0));
    assert_eq!(at(3, u32::MAX), (2 * u32::MAX as i64, u32::MAX as i64));
}

#[test]
fn defaults_are_as_listed() {
    assert_eq!(default_page(), 1);
    assert_eq!(default_limit(), 20);
    assert!(default_true());
}
