use tabletop_atlas::pdf::{
    validate_pdf_file, ChunkLimits, PdfFileError, Processor, CHUNK_OVERLAP, CHUNK_SIZE,
    MAX_CHUNK_SIZE, MIN_CHUNK_SIZE, SHORT_SENTENCE,
};

#[test]
fn pdf_test_chunk_text() {
    let service = Processor::new();
    let text = "This is a test text that should be chunked. ".repeat(50);
    let chunks = service.chunk_text(&text);

    assert!(!chunks.is_empty());
    assert!(chunks[0].len() <= MAX_CHUNK_SIZE);
    assert!(chunks[0].len() >= MIN_CHUNK_SIZE);
}

#[test]
fn pdf_test_validate_pdf_file() {
    let pdf_bytes = b"%PDF-1.4 fake pdf content";
    assert!(validate_pdf_file(pdf_bytes).is_ok());

    let not_pdf_bytes = b"This is not a PDF file";
    assert!(validate_pdf_file(not_pdf_bytes).is_err());
}

#[test]
fn validate_pdf_file_names_the_fault() {
    assert_eq!(validate_pdf_file(b"%PD"), Err(PdfFileError::TooSmall));
    assert_eq!(validate_pdf_file(b""), Err(PdfFileError::TooSmall));
    assert_eq!(validate_pdf_file(b"%PDX"), Err(PdfFileError::BadMagic));
    assert_eq!(validate_pdf_file(b"%PDF"), Ok(()));
    assert_eq!(PdfFileError::TooSmall.message(), "File too small to be a valid PDF");
    assert_eq!(
        PdfFileError::BadMagic.message(),
        "File does not appear to be a valid PDF"
    );
}

#[test]
fn test_empty_text_chunking() {
    let service = Processor::new();
    let chunks = service.chunk_text("");
    assert!(chunks.is_empty());
}

#[test]
fn whitespace_only_text_gives_no_chunk() {
    let service = Processor::new();
    assert!(service.chunk_text("  \n\t \r\n   ").is_empty());
}

#[test]
fn test_short_text_chunking() {
    let service = Processor::new();
    let text = "This is a short text that should create one chunk since it's long enough to meet the minimum chunk size requirement for our sentence-aware chunking system.";
    let chunks = service.chunk_text(text);

    assert_eq!(chunks.len(), 1);
    assert_eq!(chunks[0], text);
}

#[test]
fn test_long_text_chunking() {
    let service = Processor::new();
    let text = "A ".repeat(600); // 1200 characters
    let chunks = service.chunk_text(&text);

    assert!(chunks.len() >= 1); // Should be split appropriately
    for chunk in &chunks {
        assert!(chunk.len() <= MAX_CHUNK_SIZE);
        assert!(chunk.len() >= MIN_CHUNK_SIZE);
    }
}

#[test]
fn test_sentence_aware_chunking() {
    let service = Processor::new();
    let text = "This is the first sentence. This is the second sentence. ".repeat(20)
        + "This is a final sentence that should be preserved.";
    let chunks = service.chunk_text(&text);

    // Chunks should not end mid-sentence when possible
    for chunk in &chunks {
        let trimmed = chunk.trim();
        if trimmed.len() > 100 {
            // Only check substantial chunks
            assert!(
                trimmed.ends_with('.')
                    || trimmed.ends_with('!')
                    || trimmed.ends_with('?')
                    || chunks.len() == 1, // Single chunk case
                "Chunk should end at sentence boundary: '{}'",
                &trimmed[trimmed.len().saturating_sub(50)..]
            );
        }
    }
}

#[test]
fn test_sentence_splitting() {
    let service = Processor::new();

    // Test basic sentence splitting
    let text = "First sentence. Second sentence! Third sentence?";
    let sentences = service.split_into_sentences(text);
    assert_eq!(sentences.len(), 3);
    assert_eq!(sentences[0], "First sentence.");
    assert_eq!(sentences[1], "Second sentence!");
    assert_eq!(sentences[2], "Third sentence?");

    // Test abbreviation handling
    let text_with_abbrev = "Use vs. mode for competition. This is separate.";
    let sentences_abbrev = service.split_into_sentences(text_with_abbrev);
    assert_eq!(sentences_abbrev.len(), 2);

    // Test numbered lists (should not split)
    let numbered_text = "Follow these steps: 1. Setup the board. 2. Deal cards.";
    let numbered_sentences = service.split_into_sentences(numbered_text);
    // The numbers shouldn't create false sentence breaks
    assert!(numbered_sentences.len() <= 3);
}

#[test]
fn test_sentence_boundary_detection() {
    let service = Processor::new();

    // Test normal sentence end
    let chars: Vec<char> = "Hello world. Next sentence".chars().collect();
    assert!(service.is_sentence_end(&chars, 11)); // Position of '.'

    // Test abbreviation (should not be sentence end)
    let abbrev_chars: Vec<char> = "Use vs. other players".chars().collect();
    assert!(!service.is_sentence_end(&abbrev_chars, 6)); // Position of '.'

    // Test numbered item (should not be sentence end)
    let numbered_chars: Vec<char> = "1. First item".chars().collect();
    assert!(!service.is_sentence_end(&numbered_chars, 1)); // Position of '.'
}

#[test]
fn test_chunk_boundary_detection() {
    let service = Processor::new();

    // Good boundaries
    assert!(service.is_good_chunk_boundary("The player wins the game."));
    assert!(service.is_good_chunk_boundary("This completes the setup."));

    // Poor boundaries (in middle of procedure)
    assert!(!service.is_good_chunk_boundary("First, place the board:"));
    assert!(!service.is_good_chunk_boundary("Then move your piece."));
}

#[test]
fn test_whitespace_cleanup() {
    let service = Processor::new();
    let text_with_extra_whitespace = "Line 1 contains enough text to meet minimum requirements.\n\n  \n\nLine 2 also has sufficient content for processing.\n   \n\n\nLine 3 completes our test with adequate length.";
    let chunks = service.chunk_text(text_with_extra_whitespace);

    assert_eq!(chunks.len(), 1);
    assert_eq!(
        chunks[0],
        "Line 1 contains enough text to meet minimum requirements. Line 2 also has sufficient content for processing. Line 3 completes our test with adequate length."
    );
}

#[test]
fn pdf_test_generate_pdf_filename() {
    let game_id: i64 = 123;
    let original = "My Game Rules.pdf";
    let filename = tabletop_atlas::pdf::generate_pdf_filename(game_id, original);

    assert!(filename.starts_with("game_123_"));
    assert!(filename.ends_with(".pdf"));
}

#[test]
fn pdf_filename_holds_the_game_and_the_time() {
    assert_eq!(
        tabletop_atlas::pdf::pdf_filename_at(123, "20240131_235959"),
        "game_123_20240131_235959.pdf"
    );
    assert_eq!(tabletop_atlas::pdf::pdf_filename_at(-7, "x"), "game_-7_x.pdf");
    let name = tabletop_atlas::pdf::generate_pdf_filename(5, "rules.pdf");
    // game_5_YYYYMMDD_HHMMSS.pdf
    assert_eq!(name.len(), "game_5_".len() + 15 + ".pdf".len());
}

#[test]
fn clean_text_normalises_lines_and_spaces() {
    let service = Processor::new();
    assert_eq!(service.clean_text("  a  \n\n b \r\n\tc\n"), "a b c");
    assert_eq!(service.clean_text("one   two    three"), "one two three");
    assert_eq!(service.clean_text("x\ty"), "x\ty");
    assert_eq!(service.clean_text(" \n \n"), "");
    assert_eq!(service.clean_text(""), "");
    assert_eq!(service.clean_text("a\u{a0}\nb"), "a b");
}

#[test]
fn sentences_take_closing_quotes_and_drop_short_ones() {
    let service = Processor::new();
    let sentences =
        service.split_into_sentences("He said \"stop right now.\" Then nothing. Ok. A longer closing one.");
    assert_eq!(
        sentences,
        vec!["He said \"stop right now.\"", "Then nothing.", "A longer closing one."]
    );
    assert!(service.split_into_sentences("Too short.").is_empty());
    assert_eq!(service.split_into_sentences("Eleven char"), vec!["Eleven char"]);
    assert!(service.split_into_sentences("").is_empty());
}

#[test]
fn sentences_do_not_end_in_the_known_places() {
    let service = Processor::new();
    let at = |text: &str, pos: usize| {
        let chars: Vec<char> = text.chars().collect();
        service.is_sentence_end(&chars, pos)
    };
    assert!(at("This is it. Next", 10));
    assert!(at("This is it! Next", 10));
    assert!(at("This is it? Next", 10));
    assert!(at("This is it.", 10));
    assert!(at("This is it. 2 more", 10));
    assert!(at("This is it.\") Next", 10));
    assert!(!at("This is it. next", 10));
    assert!(!at("This is it, Next", 10));
    assert!(!at("Players, etc. Next", 12));
    assert!(!at("See e.g. Next one", 7));
    assert!(!at("Ask Dr. Next", 6));
    assert!(!at("Acme Inc. Next", 8));
    assert!(!at("Piano. Next", 5));
    assert!(!at("12. Next", 2));
    assert!(!at("Line\n3. Next", 6));
    assert!(at("Take card 3. Next", 11));
}

#[test]
fn long_text_without_punctuation_is_still_split() {
    let service = Processor::new();
    let text = "word ".repeat(1000); // 5000 characters, no sentence end
    let sentences = service.split_into_sentences(text.trim());
    assert!(sentences.len() >= 3);
    for sentence in &sentences {
        assert!(sentence.chars().count() <= MAX_CHUNK_SIZE);
    }
    let chunks = service.chunk_text(&text);
    assert!(chunks.len() >= 3);
    for chunk in &chunks {
        assert!(chunk.chars().count() >= MIN_CHUNK_SIZE);
        assert!(chunk.chars().count() <= MAX_CHUNK_SIZE);
    }
}

#[test]
fn chunks_overlap_by_whole_sentences() {
    let service = Processor::new();
    // 40 sentences of 60 characters
    let sentences: Vec<String> =
        (0..40).map(|i| format!("Sentence number {:02} says {}.", i, "x".repeat(35))).collect();
    for s in &sentences {
        assert_eq!(s.len(), 60);
    }
    let text = sentences.join(" ");
    let chunks = service.chunk_text(&text);
    assert_eq!(chunks.len(), 3);
    // 17 sentences reach 1000 characters; 4 sentences fit the overlap of 300
    assert_eq!(chunks[0], sentences[0..17].join(" "));
    assert_eq!(chunks[1], sentences[13..30].join(" "));
    assert_eq!(chunks[2], sentences[26..40].join(" "));
    for chunk in &chunks {
        assert!(chunk.len() >= MIN_CHUNK_SIZE && chunk.len() <= MAX_CHUNK_SIZE);
    }
}

#[test]
fn overlap_takes_the_last_sentences_that_fit() {
    let service = Processor::new();
    let s = |n: usize| "a".repeat(n);
    assert_eq!(service.create_sentence_overlap(&[]), "");
    assert_eq!(service.create_sentence_overlap(&[s(300)]), s(300));
    assert_eq!(service.create_sentence_overlap(&[s(301)]), "");
    assert_eq!(
        service.create_sentence_overlap(&[s(200), s(149), s(150)]),
        format!("{} {}", s(149), s(150))
    );
    assert_eq!(service.create_sentence_overlap(&[s(200), s(150), s(150)]), s(150));
    assert_eq!(service.create_sentence_overlap(&[s(10), s(400), s(20)]), s(20));
}

#[test]
fn short_rest_is_dropped() {
    let service = Processor::new();
    assert!(service.chunk_text("A sentence that is far too short to be a chunk.").is_empty());
    let ninety_nine = format!("{}.", "b".repeat(98));
    assert!(service.chunk_text(&ninety_nine).is_empty());
    let hundred = format!("{}.", "b".repeat(99));
    assert_eq!(service.chunk_text(&hundred), vec![hundred.clone()]);
}

#[test]
fn three_rules_with_low_thresholds_give_two_chunks() {
    let limits = ChunkLimits { target: 15, overlap: 10, min: 5, max: 25, short: 5 };
    let service = Processor::with_limits(limits);
    let chunks = service.chunk_text("Rule one. Rule two. Rule three.");
    assert_eq!(chunks.len(), 2);
    assert_eq!(chunks[0], "Rule one. Rule two.");
    assert_eq!(chunks[1], "Rule two. Rule three.");
    assert!(chunks[0].ends_with("Rule two."));
    assert!(chunks[1].starts_with("Rule two."));
}

#[test]
fn three_rules_with_a_tighter_maximum_give_three_chunks() {
    // the overlap and the third rule do not fit one chunk of 20 characters,
    // so the overlap is closed as a chunk of its own
    let limits = ChunkLimits { target: 15, overlap: 10, min: 5, max: 20, short: 5 };
    let chunks = Processor::with_limits(limits).chunk_text("Rule one. Rule two. Rule three.");
    assert_eq!(chunks, vec!["Rule one. Rule two.", "Rule two.", "Rule three."]);
}

#[test]
fn three_rules_with_a_small_overlap_repeat_nothing() {
    // no sentence fits an overlap of eight characters
    let limits = ChunkLimits { target: 15, overlap: 8, min: 5, max: 25, short: 5 };
    let chunks = Processor::with_limits(limits).chunk_text("Rule one. Rule two. Rule three.");
    assert_eq!(chunks, vec!["Rule one. Rule two.", "Rule three."]);
}

#[test]
fn every_chunk_begins_with_the_end_of_the_one_before() {
    let limits = ChunkLimits { target: 40, overlap: 30, min: 10, max: 60, short: 5 };
    let text = "The first rule is short. The second rule is short. The third rule is short. \
                The fourth rule is short. The fifth rule is short. The sixth rule is short.";
    let service = Processor::with_limits(limits);
    let sentences = service.split_into_sentences(&service.clean_text(text));
    let chunks = service.chunk_text(text);
    assert!(chunks.len() >= 2);
    for pair in chunks.windows(2) {
        // the longest run of whole sentences at the end of the first chunk
        // that fits the overlap opens the second
        let shared = sentences
            .iter()
            .filter(|s| pair[0].ends_with(s.as_str()) && pair[1].starts_with(s.as_str()))
            .count();
        assert!(shared >= 1, "{:?}", pair);
    }
}

#[test]
fn three_rules_at_the_standard_sizes_give_two_chunks() {
    let service = Processor::new();
    let one = format!("Rule one {}.", "x".repeat(690));
    let two = format!("Rule two {}.", "y".repeat(290));
    let three = format!("Rule three {}.", "z".repeat(500));
    let chunks = service.chunk_text(&format!("{} {} {}", one, two, three));
    assert_eq!(chunks.len(), 2);
    assert_eq!(chunks[0], format!("{} {}", one, two));
    assert_eq!(chunks[1], format!("{} {}", two, three));
    assert!(chunks[1].starts_with(&two));
}

#[test]
fn standard_sizes_are_the_constants() {
    let limits = Processor::new().limits;
    assert_eq!(limits, ChunkLimits::standard());
    assert_eq!(limits.target, CHUNK_SIZE);
    assert_eq!(limits.overlap, CHUNK_OVERLAP);
    assert_eq!(limits.min, MIN_CHUNK_SIZE);
    assert_eq!(limits.max, MAX_CHUNK_SIZE);
    assert_eq!(limits.short, SHORT_SENTENCE);
    assert_eq!((CHUNK_SIZE, CHUNK_OVERLAP, MIN_CHUNK_SIZE, MAX_CHUNK_SIZE, SHORT_SENTENCE), (1000, 300, 100, 1500, 10));
}

#[test]
fn a_chunk_may_exceed_the_maximum_after_an_overlap() {
    // a sentence of 200 characters, then one of 1400: the second chunk
    // repeats the first sentence and holds 1601 characters
    let service = Processor::new();
    let short = format!("Short {}.", "s".repeat(193));
    let long = format!("Long {}.", "l".repeat(1394));
    assert_eq!((short.len(), long.len()), (200, 1400));
    let chunks = service.chunk_text(&format!("{} {}", short, long));
    assert_eq!(chunks.len(), 2);
    assert_eq!(chunks[0], short);
    assert_eq!(chunks[1], format!("{} {}", short, long));
    assert_eq!(chunks[1].len(), 1601);
}

#[test]
fn odd_sizes_are_followed_all_the_same() {
    let tiny = Processor::with_limits(ChunkLimits { target: 0, overlap: 0, min: 0, max: 0, short: 0 });
    assert_eq!(tiny.chunk_text("ab c"), vec!["a", "b", "c"]);
    assert!(tiny.chunk_text("").is_empty());
    let no_overlap =
        Processor::with_limits(ChunkLimits { target: 10, overlap: 0, min: 1, max: 100, short: 2 });
    assert_eq!(
        no_overlap.chunk_text("One two three. Four five six. Seven."),
        vec!["One two three.", "Four five six.", "Seven."]
    );
}

#[test]
fn chunks_without_their_overlap_give_back_the_sentences() {
    let service = Processor::new();
    let sentences: Vec<String> = (0..60)
        .map(|i| format!("Sentence number {:02} is about {}.", i, "y".repeat(20 + (i * 7) % 90)))
        .collect();
    let text = sentences.join("\n");
    assert_eq!(service.split_into_sentences(&service.clean_text(&text)), sentences);
    let chunks = service.chunk_text(&text);
    assert!(chunks.len() > 2);
    // every chunk is a run of sentences; the runs follow each other and each
    // begins inside or at the end of the one before
    let mut covered = 0;
    for chunk in &chunks {
        let first = (0..=covered)
            .rev()
            .find(|&from| {
                (from..=sentences.len()).any(|to| to > covered && sentences[from..to].join(" ") == *chunk)
            })
            .expect("a chunk is a run of sentences that adds to what is covered");
        let to = (first..=sentences.len())
            .find(|&to| sentences[first..to].join(" ") == *chunk)
            .unwrap();
        assert!(to > covered);
        covered = to;
    }
    // what is left over is shorter than a chunk may be
    assert!(sentences[covered..].join(" ").len() < MIN_CHUNK_SIZE);
}
