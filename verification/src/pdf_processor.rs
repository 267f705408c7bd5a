//! A plain chunker: windows of fixed size that overlap.

use crate::pdf::normal::{clean_lines, join_lines, lemma_clean_lines_len};
use crate::pdf::{has_pdf_magic, pdf_filename, PdfFileError};
use crate::text::{chars_of, joined, string_views, strings_of, views_of};
use vstd::prelude::*;

verus! {

/// Characters that a window takes from the text.
pub const CHUNK_SIZE: usize = 1000;

/// Characters that a window shares with the one before it.
pub const CHUNK_OVERLAP: usize = 200;

/// What one window of text gives: its lines without the whitespace around
/// them, the empty ones dropped, joined by single spaces. A window that
/// holds only whitespace gives nothing.
pub open spec fn window_chunk(window: Seq<char>) -> Seq<Seq<char>> {
    if joined(clean_lines(window, 0)).len() > 0 {
        seq![joined(clean_lines(window, 0))]
    } else {
        Seq::empty()
    }
}

/// The chunks of the windows that begin at `start` and after it. A window
/// holds `CHUNK_SIZE` characters, or what is left of the text, and the next
/// one begins `CHUNK_OVERLAP` characters before its end. The window that
/// reaches the end of the text is the last.
pub open spec fn window_chunks_from(chars: Seq<char>, start: int) -> Seq<Seq<char>>
    decreases chars.len() - start,
{
    if start < 0 || start >= chars.len() {
        Seq::empty()
    } else if start + CHUNK_SIZE as int >= chars.len() {
        window_chunk(chars.subrange(start, chars.len() as int))
    } else {
        window_chunk(chars.subrange(start, start + CHUNK_SIZE as int)) + window_chunks_from(
            chars,
            start + CHUNK_SIZE as int - CHUNK_OVERLAP as int,
        )
    }
}

/// The chunks of a text.
pub open spec fn window_chunks(text: Seq<char>) -> Seq<Seq<char>> {
    window_chunks_from(text, 0)
}

/// No chunk is empty, and none is longer than a window.
pub proof fn lemma_window_chunks_bounded(chars: Seq<char>, start: int)
    ensures
        forall|k: int|
            0 <= k < window_chunks_from(chars, start).len() ==> 0 < (
            #[trigger] window_chunks_from(chars, start)[k]).len() <= CHUNK_SIZE,
    decreases chars.len() - start,
{
    if start < 0 || start >= chars.len() {
    } else if start + CHUNK_SIZE as int >= chars.len() {
        lemma_clean_lines_len(chars.subrange(start, chars.len() as int), 0);
    } else {
        let window = chars.subrange(start, start + CHUNK_SIZE as int);
        lemma_clean_lines_len(window, 0);
        let next = start + CHUNK_SIZE as int - CHUNK_OVERLAP as int;
        lemma_window_chunks_bounded(chars, next);
        let head = window_chunk(window);
        let rest = window_chunks_from(chars, next);
        let all = window_chunks_from(chars, start);
        assert forall|k: int| 0 <= k < all.len() implies 0 < (#[trigger] all[k]).len()
            <= CHUNK_SIZE by {
            if k < head.len() {
                assert(all[k] == head[k]);
            } else {
                assert(all[k] == rest[k - head.len()]);
            }
        }
    }
}

/// The plain chunker. It holds no state.
pub struct PdfProcessor {}

impl PdfProcessor {
    /// A plain chunker.
    pub fn new() -> (p: Self) {
        PdfProcessor {  }
    }

    /// The chunks of `text`: one for each window that holds more than
    /// whitespace, none empty and none longer than `CHUNK_SIZE` characters.
    pub fn chunk_text(&self, text: &str) -> (chunks: Vec<String>)
        ensures
            string_views(chunks@) == window_chunks(text@),
            forall|k: int| 0 <= k < chunks@.len() ==> 0 < (#[trigger] chunks@[k])@.len() <= CHUNK_SIZE,
    {
        let chars = chars_of(text);
        let n = chars.len();
        let mut out: Vec<Vec<char>> = Vec::new();
        let mut start: usize = 0;
        let mut done = n == 0;
        assert(views_of(out@) + window_chunks_from(chars@, 0) =~= window_chunks(text@));
        while !done
            invariant
                n == chars@.len(),
                chars@ == text@,
                !done ==> start < n,
                views_of(out@) + (if done {
                    Seq::empty()
                } else {
                    window_chunks_from(chars@, start as int)
                }) == window_chunks(text@),
            decreases
                    if done {
                        0
                    } else {
                        n - start + 1
                    },
        {
            let last = n - start <= CHUNK_SIZE;
            let end = if last {
                n
            } else {
                start + CHUNK_SIZE
            };
            let chunk = join_lines(&chars[start..end]);
            let ghost before = views_of(out@);
            if chunk.len() > 0 {
                out.push(chunk);
                assert(views_of(out@) =~= before + window_chunk(
                    chars@.subrange(start as int, end as int),
                ));
            } else {
                assert(views_of(out@) =~= before + window_chunk(
                    chars@.subrange(start as int, end as int),
                ));
            }
            if last {
                done = true;
                assert(views_of(out@) + Seq::<Seq<char>>::empty() =~= views_of(out@));
            } else {
                let ghost rest = window_chunks_from(
                    chars@,
                    start + CHUNK_SIZE as int - CHUNK_OVERLAP as int,
                );
                assert(views_of(out@) + rest =~= before + (window_chunk(
                    chars@.subrange(start as int, end as int),
                ) + rest));
                start = start + (CHUNK_SIZE - CHUNK_OVERLAP);
            }
        }
        assert(views_of(out@) + Seq::<Seq<char>>::empty() =~= views_of(out@));
        let chunks = strings_of(&out);
        proof {
            lemma_window_chunks_bounded(text@, 0);
            assert forall|k: int| 0 <= k < chunks@.len() implies 0 < (#[trigger] chunks@[k])@.len()
                <= CHUNK_SIZE by {
                assert(string_views(chunks@)[k] == chunks@[k]@);
            }
        }
        chunks
    }
}

impl Default for PdfProcessor {
    fn default() -> (p: Self) {
        PdfProcessor {  }
    }
}

/// Accepts a file that begins with `%PDF`.
pub fn validate_pdf_file(file_bytes: &[u8]) -> (r: Result<(), PdfFileError>)
    ensures
        match r {
            Ok(()) => has_pdf_magic(file_bytes@),
            Err(PdfFileError::TooSmall) => file_bytes@.len() < 4,
            Err(PdfFileError::BadMagic) => file_bytes@.len() >= 4 && !has_pdf_magic(file_bytes@),
        },
{
    crate::pdf::validate_pdf_file(file_bytes)
}

/// A name under which to store the rule book of a game that is uploaded
/// now. The name that the file had before plays no part in it.
pub fn generate_pdf_filename(game_id: i64, original_filename: &str) -> (name: String)
    ensures
        exists|stamp: Seq<char>| name@ == pdf_filename(game_id as int, stamp),
{
    crate::pdf::generate_pdf_filename(game_id, original_filename)
}

/// What came of processing a document.
#[derive(Debug)]
pub struct ProcessingResult {
    pub total_text_length: usize,
    pub chunks_processed: u32,
    pub file_path: String,
}

} // verus!
