use tabletop_atlas::pdf_processor::{validate_pdf_file, PdfProcessor, CHUNK_SIZE};

#[test]
fn pdf_processor_test_chunk_text() {
    let processor = PdfProcessor::new();
    let text = "This is a test text that should be chunked. ".repeat(50);
    let chunks = processor.chunk_text(&text);

    assert!(!chunks.is_empty());
    assert!(chunks[0].len() <= CHUNK_SIZE);
}

#[test]
fn pdf_processor_test_validate_pdf_file() {
    let pdf_bytes = b"%PDF-1.4 fake pdf content";
    assert!(validate_pdf_file(pdf_bytes).is_ok());

    let not_pdf_bytes = b"This is not a PDF file";
    assert!(validate_pdf_file(not_pdf_bytes).is_err());
}

#[test]
fn pdf_processor_test_generate_pdf_filename() {
    let game_id: i64 = 123;
    let original = "My Game Rules.pdf";
    let filename = tabletop_atlas::pdf_processor::generate_pdf_filename(game_id, original);

    assert!(filename.starts_with("game_123_"));
    assert!(filename.ends_with(".pdf"));
}

#[test]
fn windows_overlap_by_two_hundred_characters() {
    let processor = PdfProcessor::new();
    let text: String = (0..2500).map(|i| char::from(b'a' + (i % 26) as u8)).collect();
    let chunks = processor.chunk_text(&text);
    assert_eq!(chunks.len(), 3);
    assert_eq!(chunks[0], text[0..1000]);
    assert_eq!(chunks[1], text[800..1800]);
    assert_eq!(chunks[2], text[1600..2500]);
}

#[test]
fn window_that_reaches_the_end_is_the_last() {
    let processor = PdfProcessor::new();
    let text = "b".repeat(1000);
    assert_eq!(processor.chunk_text(&text), vec![text.clone()]);
    let longer = "b".repeat(1001);
    assert_eq!(processor.chunk_text(&longer), vec!["b".repeat(1000), "b".repeat(201)]);
}

#[test]
fn windows_are_cleaned_line_by_line() {
    let processor = PdfProcessor::new();
    assert_eq!(processor.chunk_text("  a  \n\n  b  c \n"), vec!["a b  c"]);
    assert!(processor.chunk_text("").is_empty());
    assert!(processor.chunk_text(" \n \t ").is_empty());
}
