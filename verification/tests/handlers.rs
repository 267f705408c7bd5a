use tabletop_atlas::handlers::chat::{
    build_context_text, enhance_lowered, enhance_search_query, extract_game_terms,
    recent_history, system_prompt,
};
use tabletop_atlas::handlers::default_cors_headers;
use std::path::Path;
use tabletop_atlas::handlers::static_files::{
    asset_path, cache_control_with, extension_of, get_cache_control, runtime_name,
    static_headers,
};
use tabletop_atlas::handlers::upload::{
    delete_response, file_was_deleted, game_not_found, upload_response, validate_upload,
    ErrorClass, IngestAction, IngestErrorKind, IngestStage, Ingestion, StepResult,
};
use tabletop_atlas::llm::{message_roles, system_content, unsupported_role, LlmConfig};
use tabletop_atlas::models::chat::{LLMMessage, MessageRole};

#[test]
fn how_do_i_questions_become_statements() {
    assert_eq!(
        enhance_search_query("How do I win?"),
        "How do I win? win? rules for win? instructions win? victory winning condition game end"
    );
    assert_eq!(
        enhance_search_query("how to move a piece"),
        "how to move a piece move a piece rules for move a piece instructions move a piece movement moving pieces relocate"
    );
    // without the space after the prefix nothing is cut off
    assert_eq!(
        enhance_search_query("how do i"),
        "how do i how do i rules for how do i instructions how do i"
    );
}

#[test]
fn what_questions_become_statements() {
    assert_eq!(
        enhance_search_query("What happens on a tie"),
        "What happens on a tie when on a tie rules on a tie"
    );
    assert_eq!(
        enhance_search_query("what can i build"),
        "what can i build player may build what can i build allowed actions"
    );
    assert_eq!(
        enhance_search_query("what may i trade"),
        "what may i trade what may i trade player may trade allowed actions"
    );
    assert_eq!(enhance_search_query("what is a meeple"), "what is a meeple what is a meeple");
}

#[test]
fn when_and_can_questions_become_statements() {
    assert_eq!(
        enhance_search_query("When is it over"),
        "When is it over when is it over if is it over timing rules"
    );
    assert_eq!(
        enhance_search_query("Can I attack twice"),
        "Can I attack twice player may attack twice allowed to attack twice attack twice combat battle fight"
    );
    assert_eq!(
        enhance_search_query("may i pass"),
        "may i pass player may pass allowed to pass pass"
    );
}

#[test]
fn other_questions_keep_their_words() {
    assert_eq!(enhance_search_query("Scoring"), "Scoring scoring");
    assert_eq!(enhance_search_query(""), " ");
    assert_eq!(
        enhance_search_query("dice and cards"),
        "dice and cards dice and cards hand deck draw roll rolling die"
    );
}

#[test]
fn enhancing_again_keeps_the_question() {
    let once = enhance_search_query("How do I win?");
    let twice = enhance_search_query(&once);
    assert!(twice.starts_with(&once));
}

#[test]
fn enhance_lowered_reads_the_given_lower_case() {
    let query: Vec<char> = "ÄB".chars().collect();
    let lower: Vec<char> = "can i win".chars().collect();
    let out: String = enhance_lowered(&query, &lower).iter().collect();
    assert_eq!(out, "ÄB player may win allowed to win win victory winning condition game end");
}

#[test]
fn game_terms_follow_the_order_of_the_concepts() {
    assert_eq!(
        extract_game_terms("end of my turn"),
        vec!["round", "phase", "player turn", "finish", "conclusion", "game over"]
    );
    assert_eq!(
        extract_game_terms("win lose turn move attack defend points cards dice setup end").len(),
        33
    );
    assert!(extract_game_terms("nothing here").is_empty());
    assert!(extract_game_terms("WIN").is_empty());
    assert_eq!(extract_game_terms("winner"), vec!["victory", "winning condition", "game end"]);
}

#[test]
fn context_lists_the_rules_found() {
    assert_eq!(build_context_text(&[]), "No specific rules found for this question.");
    assert_eq!(build_context_text(&["Roll two dice.".to_string()]), "Rule: Roll two dice.");
    assert_eq!(
        build_context_text(&["A".to_string(), "B".to_string(), "C".to_string()]),
        "Rule: A\n\nRule: B\n\nRule: C"
    );
}

fn message(role: &str, content: &str) -> LLMMessage {
    LLMMessage { role: role.to_string(), content: content.to_string() }
}

#[test]
fn history_shows_the_last_six_messages() {
    assert_eq!(recent_history(&[]), "");
    assert_eq!(recent_history(&[message("user", "hi")]), "user: hi");
    let many: Vec<LLMMessage> = (0..8)
        .map(|i| message(if i % 2 == 0 { "user" } else { "assistant" }, &format!("m{}", i)))
        .collect();
    assert_eq!(
        recent_history(&many),
        "user: m2\nassistant: m3\nuser: m4\nassistant: m5\nuser: m6\nassistant: m7"
    );
    assert_eq!(recent_history(&many[..6]).lines().count(), 6);
    assert_eq!(recent_history(&many[..7]).lines().next(), Some("assistant: m1"));
}

#[test]
fn system_prompt_holds_context_and_history() {
    let prompt = system_prompt("Rule: A", "user: hi");
    assert_eq!(
        prompt,
        format!(
            "You are a helpful assistant that explains board game rules. Use the following game rules to answer questions accurately and clearly. If the rules don't contain enough information to answer the question, say so honestly.

Game Rules Context:
{}

Conversation History:
{}

Instructions:
- Answer based on the provided rules context
- Be concise but thorough
- If rules are unclear or missing, acknowledge this
- Use examples when helpful
- Focus on practical gameplay guidance",
            "Rule: A", "user: hi"
        )
    );
}

#[test]
fn llm_instructions_carry_the_context() {
    assert_eq!(system_content(Some("Be brief."), "ctx"), "Be brief.\n\nContext:\nctx");
    assert_eq!(
        system_content(None, "ctx"),
        "Use the following context to answer the user's question:\n\nctx"
    );
}

#[test]
fn llm_takes_three_roles() {
    let good = vec![message("user", "a"), message("assistant", "b"), message("system", "c")];
    assert_eq!(
        message_roles(&good),
        Ok(vec![MessageRole::User, MessageRole::Assistant, MessageRole::System])
    );
    let bad = vec![message("user", "a"), message("tool", "b"), message("robot", "c")];
    assert_eq!(message_roles(&bad), Err(1));
    assert_eq!(message_roles(&[]), Ok(vec![]));
    assert_eq!(unsupported_role("tool"), "Unsupported message role: tool");
}

#[test]
fn llm_defaults_are_the_local_service() {
    let config = LlmConfig::new();
    assert_eq!(config.get_model(), "mistral-small3.2:24b");
    assert_eq!(config.api_base, "http://localhost:11434/v1");
    assert_eq!(config.api_key, "ollama");
    let custom = LlmConfig::with_config("http://localhost:11434/v1", "test-key", "custom-model");
    assert_eq!(custom.get_model(), "custom-model");
}

#[test]
fn cors_headers_open_the_service() {
    let cors = default_cors_headers();
    assert_eq!(cors.origin, "*");
    assert_eq!(cors.methods, "GET, POST, PUT, DELETE, OPTIONS");
    assert_eq!(cors.headers, "Content-Type, Authorization");
}

#[test]
fn cache_control_goes_by_the_extension() {
    assert_eq!(get_cache_control("_app/immutable/chunks/a.js"), "public, max-age=31536000, immutable");
    assert_eq!(get_cache_control("_app/version.css"), "public, max-age=31536000, immutable");
    assert_eq!(get_cache_control("fonts/immutable.woff2"), "public, max-age=31536000, immutable");
    assert_eq!(get_cache_control("scripts/main.js"), "public, max-age=3600");
    assert_eq!(get_cache_control("font.ttf"), "public, max-age=3600");
    assert_eq!(get_cache_control("favicon.png"), "public, max-age=86400");
    assert_eq!(get_cache_control("img/logo.svg"), "public, max-age=86400");
    assert_eq!(get_cache_control("index.html"), "public, max-age=300");
    assert_eq!(get_cache_control("games"), "public, max-age=300");
    assert_eq!(get_cache_control(".hidden"), "public, max-age=300");
    assert_eq!(get_cache_control("data.json"), "no-cache");
    assert_eq!(get_cache_control("photo.PNG"), "no-cache");
    assert_eq!(cache_control_with(Some("eot"), "x.eot"), "public, max-age=3600");
    assert_eq!(cache_control_with(None, "_app/x.js"), "public, max-age=300");
}

#[test]
fn extensions_are_what_follows_the_last_dot_of_the_file_name() {
    assert_eq!(extension_of("a/b.tar.gz").as_deref(), Some("gz"));
    assert_eq!(extension_of("index.html").as_deref(), Some("html"));
    assert_eq!(extension_of("dir.d/file"), None);
    assert_eq!(extension_of(".hidden"), None);
    assert_eq!(extension_of("a/.hidden"), None);
    assert_eq!(extension_of(".hidden.txt").as_deref(), Some("txt"));
    assert_eq!(extension_of(".."), None);
    assert_eq!(extension_of("a/.."), None);
    assert_eq!(extension_of("..."), Some(String::new()));
    assert_eq!(extension_of("name."), Some(String::new()));
    assert_eq!(extension_of(""), None);
    // a `/` at the end and a part that is a single `.` do not count
    assert_eq!(extension_of("a.b/").as_deref(), Some("b"));
    assert_eq!(extension_of("a.css/").as_deref(), Some("css"));
    assert_eq!(extension_of("a.css//").as_deref(), Some("css"));
    assert_eq!(extension_of("a.css/.").as_deref(), Some("css"));
    assert_eq!(extension_of("dir/a.css/./").as_deref(), Some("css"));
    assert_eq!(extension_of("a.css/.."), None);
    assert_eq!(extension_of("a.css/../"), None);
    assert_eq!(extension_of("/"), None);
    assert_eq!(extension_of("/."), None);
    assert_eq!(extension_of("./"), None);
    assert_eq!(extension_of("."), None);
    assert_eq!(get_cache_control("a.css/"), "public, max-age=3600");
    for path in [
        "a/b.tar.gz",
        "index.html",
        "dir.d/file",
        ".hidden",
        "a/.hidden",
        ".hidden.txt",
        "..",
        "a/..",
        "name.",
        "",
        "_app/immutable/chunks/a.B.js",
        "favicon.png",
        "x.y.z/w.v",
        "a.css/",
        "a.css//",
        "a.css/.",
        "dir/a.css/./",
        "a.css/..",
        "a.css/../",
        "a/./b.c",
        "/",
        "/.",
        "./",
        ".",
        "./.",
        "...",
        "..a",
        "/.a.b",
    ] {
        let expected = Path::new(path).extension().and_then(|e| e.to_str()).map(|e| e.to_string());
        assert_eq!(extension_of(path), expected, "{:?}", path);
    }
}

#[test]
fn static_headers_name_the_media_type() {
    let js = static_headers("_app/immutable/start.js");
    assert!(js.content_type.contains("javascript"));
    assert_eq!(js.cache_control, "public, max-age=31536000, immutable");
    assert_eq!(static_headers("favicon.png").content_type, "image/png");
    assert_eq!(static_headers("index.html").content_type, "text/html");
    assert_eq!(static_headers("app.css").content_type, "text/css");
    assert_eq!(static_headers("unknown.zzzz").content_type, "application/octet-stream");
    assert_eq!(static_headers("noextension").content_type, "application/octet-stream");
    assert_eq!(static_headers("photo.PNG").content_type, "image/png");
    assert_eq!(static_headers(".png").content_type, "application/octet-stream");
    assert_ne!(static_headers("a.png").content_type, "png");
}

#[test]
fn asset_paths_lie_under_app() {
    assert_eq!(
        asset_path(&["immutable".to_string(), "chunks".to_string(), "a.js".to_string()]),
        "_app/immutable/chunks/a.js"
    );
    assert_eq!(asset_path(&[]), "_app/");
    assert_eq!(runtime_name(true), "embedded-frontend");
    assert_eq!(runtime_name(false), "api-only");
}

#[test]
fn upload_answers_count_what_was_done() {
    let r = upload_response(123, "uploads/game_123_x.pdf".to_string(), 4567, 8);
    assert_eq!(
        r.message,
        "Successfully uploaded and processed PDF for game 123. Extracted 4567 characters and created 8 text chunks."
    );
    assert_eq!(r.file_path.as_deref(), Some("uploads/game_123_x.pdf"));
    assert_eq!(r.chunks_processed, Some(8));
    assert_eq!(r.text_length, Some(4567));
    let d = delete_response(9, 12, true);
    assert_eq!(d.message, "Successfully deleted rules for game 9. Removed 12 embedding chunks.");
    assert_eq!(d.embeddings_deleted, 12);
    assert!(d.file_deleted);
    assert!(file_was_deleted(true, true, true));
    assert!(!file_was_deleted(true, true, false));
    assert!(!file_was_deleted(true, false, true));
    assert!(!file_was_deleted(false, true, true));
    assert_eq!(game_not_found(42), "Game with id 42 not found");
}

fn failed_reason(result: StepResult) -> Option<String> {
    match result {
        StepResult::Failed(reason) => Some(reason),
        _ => None,
    }
}

#[test]
fn uploads_are_checked_before_anything_is_done() {
    assert!(matches!(validate_upload(b"%PDF-1.7 ..."), StepResult::Done));
    assert_eq!(failed_reason(validate_upload(b"")).as_deref(), Some("No file data provided"));
    assert_eq!(
        failed_reason(validate_upload(b"%P")).as_deref(),
        Some("Invalid PDF file: File too small to be a valid PDF")
    );
    assert_eq!(
        failed_reason(validate_upload(b"<html>")).as_deref(),
        Some("Invalid PDF file: File does not appear to be a valid PDF")
    );
}

#[test]
fn upload_runs_its_steps_in_order() {
    let mut upload = Ingestion::new();
    let steps = [
        (IngestStage::Received, IngestAction::Validate),
        (IngestStage::Validated, IngestAction::FindGame),
        (IngestStage::GameFound, IngestAction::SaveFile),
        (IngestStage::FileSaved, IngestAction::ExtractText),
        (IngestStage::TextExtracted, IngestAction::ChunkText),
        (IngestStage::Chunked, IngestAction::EmbedChunks),
        (IngestStage::Embedded, IngestAction::StoreRules),
    ];
    for (stage, action) in steps {
        assert_eq!(upload.stage(), stage);
        assert_eq!(upload.next_action(), action);
        upload.advance(StepResult::Done);
    }
    assert_eq!(upload.stage(), IngestStage::Persisted);
    assert_eq!(upload.next_action(), IngestAction::Respond);
    assert!(upload.error().is_none());
    upload.advance(StepResult::Failed("late".to_string()));
    assert_eq!(upload.stage(), IngestStage::Persisted);
}

fn upload_failing_after(done: usize, result: StepResult) -> Ingestion {
    let mut upload = Ingestion::new();
    for _ in 0..done {
        upload.advance(StepResult::Done);
    }
    upload.advance(result);
    upload
}

#[test]
fn upload_that_fails_early_is_reported_at_once() {
    let upload = upload_failing_after(0, validate_upload(b"nope"));
    assert_eq!(upload.stage(), IngestStage::Failed);
    assert_eq!(upload.next_action(), IngestAction::Report);
    let error = upload.error().unwrap();
    assert_eq!(error.kind, IngestErrorKind::Validation);
    assert_eq!(error.class(), ErrorClass::BadInput);
    assert_eq!(error.user_message(), "Invalid PDF file: File does not appear to be a valid PDF");

    let missing = upload_failing_after(1, StepResult::Missing(game_not_found(7)));
    assert_eq!(missing.next_action(), IngestAction::Report);
    let error = missing.error().unwrap();
    assert_eq!(error.kind, IngestErrorKind::NotFound);
    assert_eq!(error.class(), ErrorClass::NotFound);
    assert_eq!(error.user_message(), "Game with id 7 not found");

    let store = upload_failing_after(1, StepResult::Failed("disk I/O error".to_string()));
    assert_eq!(store.error().unwrap().kind, IngestErrorKind::Storage);
    assert_eq!(store.next_action(), IngestAction::Report);

    let save = upload_failing_after(2, StepResult::Failed("read-only".to_string()));
    assert_eq!(save.error().unwrap().kind, IngestErrorKind::FileSystem);
    assert_eq!(save.next_action(), IngestAction::Report);
}

#[test]
fn upload_that_fails_late_removes_its_file_first() {
    let kinds = [
        (3, IngestErrorKind::Extraction),
        (4, IngestErrorKind::Extraction),
        (5, IngestErrorKind::EmbeddingService),
        (6, IngestErrorKind::Storage),
    ];
    for (done, kind) in kinds {
        let mut upload = upload_failing_after(done, StepResult::Failed("SQLITE_BUSY at 0x1".to_string()));
        assert_eq!(upload.stage(), IngestStage::Failed);
        assert_eq!(upload.next_action(), IngestAction::RemoveFile);
        upload.advance(StepResult::Done);
        assert_eq!(upload.stage(), IngestStage::Failed);
        assert_eq!(upload.next_action(), IngestAction::Report);
        let error = upload.error().unwrap();
        assert_eq!(error.kind, kind);
        assert_eq!(error.class(), ErrorClass::Internal);
        // what the store said stays in the log
        assert!(!error.user_message().contains("SQLITE_BUSY"));
        assert!(error.log_message().ends_with(": SQLITE_BUSY at 0x1"));
        upload.advance(StepResult::Done);
        assert_eq!(upload.next_action(), IngestAction::Report);
    }
}

#[test]
fn upload_whose_store_fails_touches_the_store_once() {
    // the game and the chunks are written by one step, so a failure of the
    // store leaves no record of a file that is then removed
    let mut upload = Ingestion::new();
    let mut asked = Vec::new();
    for _ in 0..6 {
        asked.push(upload.next_action());
        upload.advance(StepResult::Done);
    }
    asked.push(upload.next_action());
    upload.advance(StepResult::Failed("constraint failed".to_string()));
    for _ in 0..3 {
        asked.push(upload.next_action());
        upload.advance(StepResult::Done);
    }
    assert_eq!(
        asked,
        vec![
            IngestAction::Validate,
            IngestAction::FindGame,
            IngestAction::SaveFile,
            IngestAction::ExtractText,
            IngestAction::ChunkText,
            IngestAction::EmbedChunks,
            IngestAction::StoreRules,
            IngestAction::RemoveFile,
            IngestAction::Report,
            IngestAction::Report,
        ]
    );
    assert_eq!(asked.iter().filter(|a| **a == IngestAction::StoreRules).count(), 1);
}

#[test]
fn upload_errors_say_what_failed() {
    let upload = upload_failing_after(5, StepResult::Failed("timeout".to_string()));
    let error = upload.error().unwrap();
    assert_eq!(error.user_message(), "Failed to generate embeddings");
    assert_eq!(error.log_message(), "Failed to generate embeddings: timeout");
    let extract = upload_failing_after(3, StepResult::Failed("bad xref".to_string()));
    assert_eq!(extract.error().unwrap().log_message(), "Failed to extract PDF text: bad xref");
    let store = upload_failing_after(6, StepResult::Failed("x".to_string()));
    assert_eq!(store.error().unwrap().user_message(), "Failed to store rules");
    let save = upload_failing_after(2, StepResult::Failed("x".to_string()));
    assert_eq!(save.error().unwrap().user_message(), "Failed to save file");
    let input = upload_failing_after(0, StepResult::Failed("why".to_string()));
    assert_eq!(input.error().unwrap().log_message(), "Upload rejected: why");
    let missing = upload_failing_after(1, StepResult::Missing("gone".to_string()));
    assert_eq!(missing.error().unwrap().log_message(), "Not found: gone");
}

#[test]
fn test_llm_client_creation() {
    let client = LlmConfig::new();
    assert_eq!(client.get_model(), "mistral-small3.2:24b");
}

#[test]
fn llm_test_custom_config() {
    let client = LlmConfig::with_config("http://localhost:11434/v1", "test-key", "custom-model");
    assert_eq!(client.get_model(), "custom-model");
}
