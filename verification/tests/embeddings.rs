use tabletop_atlas::embeddings::{
    arrange_batch, first_vector, order_by_tag, plan_batch, BatchPlan, EmbedderConfig,
    EmbeddingError, DEFAULT_API_BASE, DEFAULT_API_KEY, DEFAULT_EMBEDDING_MODEL,
};

#[test]
fn default_service_is_the_local_one() {
    let config = EmbedderConfig::new();
    assert_eq!(config.get_model(), "nomic-embed-text:latest");
    assert_eq!(config.api_base, "http://localhost:11434/v1");
    assert_eq!(config.api_key, "ollama");
    assert_eq!(DEFAULT_EMBEDDING_MODEL, "nomic-embed-text:latest");
    assert_eq!(DEFAULT_API_BASE, "http://localhost:11434/v1");
    assert_eq!(DEFAULT_API_KEY, "ollama");
}

#[test]
fn custom_service_keeps_what_it_is_given() {
    let config = EmbedderConfig::with_config("http://localhost:11434/v1", "test-key", "custom-model");
    assert_eq!(config.get_model(), "custom-model");
    assert_eq!(config.api_key, "test-key");
    assert_eq!(config.api_base, "http://localhost:11434/v1");
}

#[test]
fn empty_batch_makes_no_call() {
    assert_eq!(plan_batch(0), BatchPlan::Empty);
    assert_eq!(plan_batch(1), BatchPlan::Request);
    assert_eq!(plan_batch(3), BatchPlan::Request);
}

#[test]
fn batch_comes_back_in_the_order_of_the_texts() {
    assert_eq!(arrange_batch(3, &[0, 1, 2]).unwrap(), vec![0, 1, 2]);
    assert_eq!(arrange_batch(3, &[2, 0, 1]).unwrap(), vec![1, 2, 0]);
    assert_eq!(arrange_batch(4, &[3, 2, 1, 0]).unwrap(), vec![3, 2, 1, 0]);
    let tags = [2u32, 0, 1];
    let vectors = ["two", "zero", "one"];
    let order = arrange_batch(3, &tags).unwrap();
    let in_order: Vec<&str> = order.iter().map(|&p| vectors[p]).collect();
    assert_eq!(in_order, vec!["zero", "one", "two"]);
}

#[test]
fn batch_with_equal_tags_keeps_the_order_of_arrival() {
    assert_eq!(order_by_tag(&[1, 0, 1, 0]), vec![1, 3, 0, 2]);
    assert_eq!(order_by_tag(&[]), Vec::<usize>::new());
}

#[test]
fn batch_of_the_wrong_size_is_refused() {
    match arrange_batch(3, &[0, 1]) {
        Err(EmbeddingError::CountMismatch { expected, got }) => {
            assert_eq!(expected, 3);
            assert_eq!(got, 2);
        }
        other => panic!("{:?}", other),
    }
    assert!(arrange_batch(0, &[0]).is_err());
    assert!(arrange_batch(2, &[]).is_err());
    assert_eq!(arrange_batch(0, &[]).unwrap(), Vec::<usize>::new());
}

#[test]
fn single_answer_needs_a_vector() {
    assert!(matches!(first_vector(0), Err(EmbeddingError::NoData)));
    assert!(matches!(first_vector(1), Ok(0)));
    assert!(matches!(first_vector(7), Ok(0)));
}

#[test]
fn embedding_errors_say_what_happened() {
    assert_eq!(
        EmbeddingError::CountMismatch { expected: 3, got: 12 }.message(),
        "Expected 3 embeddings, got 12"
    );
    assert_eq!(EmbeddingError::NoData.message(), "No embedding data returned");
    assert_eq!(
        EmbeddingError::Request("bad input".to_string()).message(),
        "Failed to build embedding request: bad input"
    );
    assert_eq!(
        EmbeddingError::Service("connection refused".to_string()).message(),
        "Failed to create embeddings: connection refused"
    );
    assert_eq!(
        EmbeddingError::ServiceOne("connection refused".to_string()).message(),
        "Failed to create embedding: connection refused"
    );
}

#[test]
fn test_embedding_service_creation() {
    let service = EmbedderConfig::new();
    assert_eq!(service.get_model(), "nomic-embed-text:latest");
}

#[test]
fn embeddings_test_custom_config() {
    let service = EmbedderConfig::with_config("http://localhost:11434/v1", "test-key", "custom-model");
    assert_eq!(service.get_model(), "custom-model");
}

#[test]
fn test_service_configuration() {
    let custom_service =
        EmbedderConfig::with_config("http://localhost:11434/v1", "test-key", "custom-model");

    assert_eq!(custom_service.get_model(), "custom-model");
}

#[test]
fn test_empty_input() {
    let empty_texts: Vec<String> = vec![];
    assert_eq!(plan_batch(empty_texts.len()), BatchPlan::Empty);
    let result = arrange_batch(empty_texts.len(), &[]);
    assert!(result.is_ok());
    assert_eq!(result.unwrap().len(), 0);
}
