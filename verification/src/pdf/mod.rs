//! Splitting the text of a rule book into overlapping, sentence-aware chunks.
//!
//! A text is brought into its normal form, cut into sentences, and the
//! sentences are gathered into chunks, each of which repeats the end of the
//! one before it.

use crate::pdf::boundary::{sentence_end_at, sentence_ends_at};
use crate::pdf::chunks::{
    all_at_least, all_at_most, all_fitting, assemble_chunks, chunks_of_text, good_boundary,
    is_good_boundary, lemma_chunk_lengths, overlap_start, overlap_text,
};
use crate::pdf::normal::{
    clean_chars, cleaned, lemma_cleaned_is_normal, no_double_space, no_line_feed,
};
use crate::pdf::sentences::{
    lemma_sentences_well_formed, sentences_of, split_chars, stretches_of, well_formed_sentence,
};
use crate::text::{
    char_vecs_of, chars_of, is_trimmed, joined, push_signed_decimal, push_str, signed_decimal,
    string_of, string_views, strings_of, views_of,
};
use vstd::prelude::*;
use vstd::string::StringExecFns;

pub mod boundary;
pub mod chunks;
pub mod cover;
pub mod normal;
pub mod sentences;

verus! {

/// Size at which a chunk is closed if its last sentence is a good place to stop.
pub const CHUNK_SIZE: usize = 1000;

/// Most characters that a new chunk repeats from the end of the one before.
pub const CHUNK_OVERLAP: usize = 300;

/// Fewest characters of a chunk.
pub const MIN_CHUNK_SIZE: usize = 100;

/// Size that a chunk is not meant to exceed, and longest run of text that is
/// searched for the end of a sentence.
pub const MAX_CHUNK_SIZE: usize = 1500;

/// Longest sentence that is dropped for being too short.
pub const SHORT_SENTENCE: usize = 10;

/// How far back from a full stop an abbreviation is looked for.
pub const ABBREVIATION_WINDOW: usize = 10;

/// The sizes that steer the chunker, in characters.
#[derive(Debug, Clone, Copy, PartialEq, Eq)]
pub struct ChunkLimits {
    /// Size at which a chunk is closed if its last sentence is a good place
    /// to stop.
    pub target: usize,
    /// Most characters that a new chunk repeats from the end of the one
    /// before.
    pub overlap: usize,
    /// Fewest characters of a chunk.
    pub min: usize,
    /// Size that a chunk is not meant to exceed, and longest run of text
    /// that is searched for the end of a sentence.
    pub max: usize,
    /// Longest sentence that is dropped for being too short.
    pub short: usize,
}

/// The sizes with which the chunker works unless it is given others.
pub open spec fn standard_limits() -> ChunkLimits {
    ChunkLimits {
        target: CHUNK_SIZE,
        overlap: CHUNK_OVERLAP,
        min: MIN_CHUNK_SIZE,
        max: MAX_CHUNK_SIZE,
        short: SHORT_SENTENCE,
    }
}

impl ChunkLimits {
    /// The sizes with which the chunker works unless it is given others.
    pub fn standard() -> (limits: Self)
        ensures
            limits == standard_limits(),
    {
        ChunkLimits {
            target: CHUNK_SIZE,
            overlap: CHUNK_OVERLAP,
            min: MIN_CHUNK_SIZE,
            max: MAX_CHUNK_SIZE,
            short: SHORT_SENTENCE,
        }
    }

    /// Whether the sizes fit each other: a chunk that reaches the target
    /// is long enough, a chunk that is too short to be closed is no longer
    /// than an overlap with its space, and an overlap fits a chunk.
    pub open spec fn fit(self) -> bool {
        self.min <= self.target && self.min <= self.overlap + 1 && self.overlap <= self.max
    }
}

/// Why a file was not accepted as a PDF.
#[derive(Debug, Clone, Copy, PartialEq, Eq)]
pub enum PdfFileError {
    /// Fewer than four bytes.
    TooSmall,
    /// The file does not begin with `%PDF`.
    BadMagic,
}

impl PdfFileError {
    /// The error in words.
    pub fn message(&self) -> (out: String)
        ensures
            out@ == match *self {
                PdfFileError::TooSmall => "File too small to be a valid PDF"@,
                PdfFileError::BadMagic => "File does not appear to be a valid PDF"@,
            },
    {
        match self {
            PdfFileError::TooSmall => String::from_str("File too small to be a valid PDF"),
            PdfFileError::BadMagic => String::from_str("File does not appear to be a valid PDF"),
        }
    }
}

/// Whether `bytes` begins with the four bytes `%PDF`.
pub open spec fn has_pdf_magic(bytes: Seq<u8>) -> bool {
    bytes.len() >= 4 && bytes[0] == 0x25 && bytes[1] == 0x50 && bytes[2] == 0x44 && bytes[3]
        == 0x46
}

/// Accepts a file that begins with `%PDF`.
pub fn validate_pdf_file(file_bytes: &[u8]) -> (r: Result<(), PdfFileError>)
    ensures
        match r {
            Ok(()) => has_pdf_magic(file_bytes@),
            Err(PdfFileError::TooSmall) => file_bytes@.len() < 4,
            Err(PdfFileError::BadMagic) => file_bytes@.len() >= 4 && !has_pdf_magic(file_bytes@),
        },
{
    if file_bytes.len() < 4 {
        return Err(PdfFileError::TooSmall);
    }
    if file_bytes[0] == 0x25 && file_bytes[1] == 0x50 && file_bytes[2] == 0x44 && file_bytes[3]
        == 0x46 {
        Ok(())
    } else {
        Err(PdfFileError::BadMagic)
    }
}

/// Calls `chrono::Utc::now` and writes the time in the form
/// `%Y%m%d_%H%M%S`. Nothing is claimed of the result: it depends on the
/// clock. `chrono` gives up where the clock is set to a time before 1970.
#[verifier::external_body]
fn timestamp_now() -> (stamp: String) {
    chrono::Utc::now().format("%Y%m%d_%H%M%S").to_string()
}

/// The name under which the rule book of a game is stored, where `stamp`
/// tells the time of the upload.
pub open spec fn pdf_filename(game_id: int, stamp: Seq<char>) -> Seq<char> {
    "game_"@ + signed_decimal(game_id) + "_"@ + stamp + ".pdf"@
}

/// The name under which the rule book of a game is stored, where `stamp`
/// tells the time of the upload.
pub fn pdf_filename_at(game_id: i64, stamp: &str) -> (name: String)
    ensures
        name@ == pdf_filename(game_id as int, stamp@),
{
    let mut buf: Vec<char> = Vec::new();
    push_str(&mut buf, "game_");
    push_signed_decimal(&mut buf, game_id);
    push_str(&mut buf, "_");
    push_str(&mut buf, stamp);
    push_str(&mut buf, ".pdf");
    assert(buf@ =~= pdf_filename(game_id as int, stamp@));
    string_of(buf.as_slice())
}

/// A name under which to store the rule book of a game that is uploaded
/// now. The name that the file had before plays no part in it.
pub fn generate_pdf_filename(game_id: i64, original_filename: &str) -> (name: String)
    ensures
        exists|stamp: Seq<char>| name@ == pdf_filename(game_id as int, stamp),
{
    let stamp = timestamp_now();
    pdf_filename_at(game_id, stamp.as_str())
}

/// The chunker. It holds the sizes that steer it and nothing else.
pub struct Processor {
    pub limits: ChunkLimits,
}

impl Processor {
    /// A chunker with the standard sizes.
    pub fn new() -> (p: Self)
        ensures
            p.limits == standard_limits(),
    {
        Processor { limits: ChunkLimits::standard() }
    }

    /// A chunker with sizes of the caller's choice.
    pub fn with_limits(limits: ChunkLimits) -> (p: Self)
        ensures
            p.limits == limits,
    {
        Processor { limits }
    }

    /// Whether a sentence ends at `pos`: the character there is `.`, `!` or
    /// `?`, a full stop there neither closes a known abbreviation nor
    /// follows the number of a list item, and what comes next may begin a
    /// sentence.
    pub fn is_sentence_end(&self, chars: &[char], pos: usize) -> (r: bool)
        requires
            pos < chars.len(),
        ensures
            r == sentence_end_at(chars@, pos as int),
    {
        sentence_ends_at(chars, pos)
    }

    /// Whether `sentence` is a good place to end a chunk: it draws a
    /// conclusion or states a result, or at least it neither names a step of
    /// a sequence nor ends with a colon.
    pub fn is_good_chunk_boundary(&self, sentence: &str) -> (r: bool)
        ensures
            r == good_boundary(sentence@),
    {
        let chars = chars_of(sentence);
        is_good_boundary(chars.as_slice())
    }

    /// The normal form of `text`: lines without the whitespace around them,
    /// empty lines dropped, the rest joined by single spaces, runs of spaces
    /// reduced to one.
    pub fn clean_text(&self, text: &str) -> (out: String)
        ensures
            out@ == cleaned(text@),
            no_line_feed(out@),
            no_double_space(out@),
            is_trimmed(out@),
    {
        proof {
            lemma_cleaned_is_normal(text@);
        }
        let chars = chars_of(text);
        let clean = clean_chars(chars.as_slice());
        string_of(clean.as_slice())
    }

    /// The sentences of `text`, each without the whitespace around it and
    /// longer than `limits.short` characters.
    pub fn split_into_sentences(&self, text: &str) -> (out: Vec<String>)
        ensures
            string_views(out@) == sentences_of(self.limits, text@),
    {
        let chars = chars_of(text);
        let sentences = split_chars(self.limits, chars.as_slice());
        strings_of(&sentences)
    }

    /// The text that a chunk repeats from the chunk before it, which has
    /// added `sentences`: the longest run at their end whose joined text has
    /// at most `limits.overlap` characters.
    pub fn create_sentence_overlap(&self, sentences: &[String]) -> (out: String)
        ensures
            out@ == joined(
                string_views(sentences@).subrange(
                    overlap_start(self.limits, string_views(sentences@), 0, sentences@.len() as int),
                    sentences@.len() as int,
                ),
            ),
    {
        let parts = char_vecs_of(sentences);
        let (overlap, _first) = overlap_text(self.limits, &parts, 0, parts.len());
        string_of(overlap.as_slice())
    }

    /// The chunks of `text`: the text is brought into its normal form and
    /// split into sentences, and the sentences are gathered into chunks that
    /// overlap. No chunk is empty; with sizes that fit each other none is
    /// shorter than `limits.min`, and none is longer than `limits.max` where
    /// every sentence is short enough to follow an overlap.
    pub fn chunk_text(&self, text: &str) -> (chunks: Vec<String>)
        ensures
            string_views(chunks@) == chunks_of_text(self.limits, text@),
            all_at_least(string_views(chunks@), 1),
            self.limits.fit() ==> all_at_least(string_views(chunks@), self.limits.min as int),
            self.limits.fit() && all_fitting(self.limits, sentences_of(self.limits, cleaned(text@)))
                ==> all_at_most(string_views(chunks@), self.limits.max as int),
    {
        let chars = chars_of(text);
        let clean = clean_chars(chars.as_slice());
        let sentences = split_chars(self.limits, clean.as_slice());
        proof {
            lemma_sentences_well_formed(self.limits, stretches_of(self.limits, clean@));
            assert forall|k: int| 0 <= k < sentences@.len() implies (#[trigger] sentences@[k])@.len()
                > 0 by {
                assert(well_formed_sentence(self.limits, views_of(sentences@)[k]));
            }
        }
        proof {
            lemma_chunk_lengths(self.limits, text@);
        }
        let chunks = assemble_chunks(self.limits, &sentences);
        strings_of(&chunks)
    }
}

impl Default for Processor {
    fn default() -> (p: Self)
        ensures
            p.limits == standard_limits(),
    {
        Processor::new()
    }
}

/// The text of a document and the chunks made of it.
#[derive(Debug, Clone)]
pub struct ProcessedPdf {
    pub full_text: String,
    pub chunks: Vec<String>,
}

} // verus!
