//! Taking in a rule book: the order of the steps, what a failure at each of
//! them means, and what is said at the end.
//!
//! The steps themselves reach outside: they read the store, write a file,
//! call the embedding service. They are run by the caller, who asks here
//! what to do next and reports how it went.

use crate::models::embedding::EmbeddingSourceType;
use crate::pdf::{has_pdf_magic, validate_pdf_file};
use crate::text::{decimal, push_decimal, push_signed_decimal, push_str, signed_decimal, string_of};
use vstd::prelude::*;
use vstd::string::StringExecFns;

verus! {

/// Which game an upload is for.
#[derive(Debug)]
pub struct UploadPathParam {
    pub id: i64,
}

/// What is answered to an upload that went well.
#[derive(Debug)]
pub struct UploadResponse {
    pub message: String,
    pub file_path: Option<String>,
    pub chunks_processed: Option<u32>,
    pub text_length: Option<usize>,
}

/// What is answered when the rules of a game were deleted.
#[derive(Debug)]
pub struct DeleteRulesResponse {
    pub message: String,
    pub embeddings_deleted: u32,
    pub file_deleted: bool,
}

/// The message of an upload that went well.
pub open spec fn upload_message(game_id: int, text_length: nat, chunks: nat) -> Seq<char> {
    "Successfully uploaded and processed PDF for game "@ + signed_decimal(game_id)
        + ". Extracted "@ + decimal(text_length) + " characters and created "@ + decimal(chunks)
        + " text chunks."@
}

/// The message that tells that the rules of a game were deleted.
pub open spec fn delete_message(game_id: int, embeddings_deleted: nat) -> Seq<char> {
    "Successfully deleted rules for game "@ + signed_decimal(game_id) + ". Removed "@ + decimal(
        embeddings_deleted,
    ) + " embedding chunks."@
}

/// The answer to an upload that went well.
pub fn upload_response(game_id: i64, file_path: String, text_length: usize, chunks: u32) -> (r:
    UploadResponse)
    ensures
        r.message@ == upload_message(game_id as int, text_length as nat, chunks as nat),
        r.file_path == Some(file_path),
        r.chunks_processed == Some(chunks),
        r.text_length == Some(text_length),
{
    let mut buf: Vec<char> = Vec::new();
    push_str(&mut buf, "Successfully uploaded and processed PDF for game ");
    push_signed_decimal(&mut buf, game_id);
    push_str(&mut buf, ". Extracted ");
    push_decimal(&mut buf, text_length as u64);
    push_str(&mut buf, " characters and created ");
    push_decimal(&mut buf, chunks as u64);
    push_str(&mut buf, " text chunks.");
    assert(buf@ =~= upload_message(game_id as int, text_length as nat, chunks as nat));
    UploadResponse {
        message: string_of(buf.as_slice()),
        file_path: Some(file_path),
        chunks_processed: Some(chunks),
        text_length: Some(text_length),
    }
}

/// The answer that tells that the rules of a game were deleted.
pub fn delete_response(game_id: i64, embeddings_deleted: u32, file_deleted: bool) -> (r:
    DeleteRulesResponse)
    ensures
        r.message@ == delete_message(game_id as int, embeddings_deleted as nat),
        r.embeddings_deleted == embeddings_deleted,
        r.file_deleted == file_deleted,
{
    let mut buf: Vec<char> = Vec::new();
    push_str(&mut buf, "Successfully deleted rules for game ");
    push_signed_decimal(&mut buf, game_id);
    push_str(&mut buf, ". Removed ");
    push_decimal(&mut buf, embeddings_deleted as u64);
    push_str(&mut buf, " embedding chunks.");
    assert(buf@ =~= delete_message(game_id as int, embeddings_deleted as nat));
    DeleteRulesResponse { message: string_of(buf.as_slice()), embeddings_deleted, file_deleted }
}

/// Whether the file of the rules counts as deleted: there was one on
/// record, it was still there, and removing it went well.
pub fn file_was_deleted(on_record: bool, present: bool, removed: bool) -> (deleted: bool)
    ensures
        deleted == (on_record && present && removed),
{
    on_record && present && removed
}

/// A chunk of a rule book as it is stored, without its vector.
#[derive(Debug)]
pub struct ChunkRecord {
    pub game_id: i64,
    pub chunk_text: String,
    pub chunk_index: i32,
    pub source_type: EmbeddingSourceType,
    pub source_id: Option<i64>,
}

/// The records of the chunks of a rule book, in the order of the chunks:
/// each is numbered with its place, counted from 0, so that the numbers rise
/// as the chunks follow each other.
pub fn chunk_records(game_id: i64, chunks: &[String]) -> (records: Vec<ChunkRecord>)
    requires
        chunks@.len() <= i32::MAX,
    ensures
        records@.len() == chunks@.len(),
        forall|k: int|
            0 <= k < records@.len() ==> {
                &&& (#[trigger] records@[k]).chunk_index == k
                &&& records@[k].chunk_text@ == chunks@[k]@
                &&& records@[k].game_id == game_id
                &&& records@[k].source_type == EmbeddingSourceType::RulesPdf
                &&& records@[k].source_id is None
            },
{
    let mut records: Vec<ChunkRecord> = Vec::new();
    let mut i: usize = 0;
    while i < chunks.len()
        invariant
            i <= chunks.len(),
            chunks@.len() <= i32::MAX,
            records@.len() == i,
            forall|k: int|
                0 <= k < i ==> {
                    &&& (#[trigger] records@[k]).chunk_index == k
                    &&& records@[k].chunk_text@ == chunks@[k]@
                    &&& records@[k].game_id == game_id
                    &&& records@[k].source_type == EmbeddingSourceType::RulesPdf
                    &&& records@[k].source_id is None
                },
        decreases chunks.len() - i,
    {
        records.push(
            ChunkRecord {
                game_id,
                chunk_text: chunks[i].clone(),
                chunk_index: i as i32,
                source_type: EmbeddingSourceType::RulesPdf,
                source_id: None,
            },
        );
        i += 1;
    }
    records
}

// ---------------------------------------------------------------------------
// The steps of an upload
// ---------------------------------------------------------------------------

/// How far an upload has come.
#[derive(Debug, Clone, Copy, PartialEq, Eq, Structural)]
pub enum IngestStage {
    /// The bytes have arrived.
    Received,
    /// The bytes are a PDF.
    Validated,
    /// The game exists.
    GameFound,
    /// The file is written.
    FileSaved,
    /// The text is read from the file.
    TextExtracted,
    /// The text is cut into chunks.
    Chunked,
    /// Every chunk has its vector.
    Embedded,
    /// The game holds the text and the path of the file, and the chunks and
    /// their vectors are stored: the upload has succeeded.
    Persisted,
    /// A step has failed: the upload has ended without success.
    Failed,
}

/// What kind of failure ended an upload.
#[derive(Debug, Clone, Copy, PartialEq, Eq, Structural)]
pub enum IngestErrorKind {
    /// The upload is empty or no PDF.
    Validation,
    /// There is no such game.
    NotFound,
    /// The text could not be read from the file.
    Extraction,
    /// The embedding service failed, or answered with the wrong number of
    /// vectors.
    EmbeddingService,
    /// The store failed.
    Storage,
    /// The file could not be written.
    FileSystem,
}

/// How a failure looks to the one who sent the request.
#[derive(Debug, Clone, Copy, PartialEq, Eq, Structural)]
pub enum ErrorClass {
    BadInput,
    NotFound,
    Internal,
}

/// What the caller is to do next.
#[derive(Debug, Clone, Copy, PartialEq, Eq, Structural)]
pub enum IngestAction {
    /// Check that the bytes are a PDF.
    Validate,
    /// Look the game up in the store.
    FindGame,
    /// Write the bytes to a file.
    SaveFile,
    /// Read the text from the file.
    ExtractText,
    /// Cut the text into chunks.
    ChunkText,
    /// Ask the embedding service for the vectors of all chunks at once.
    EmbedChunks,
    /// Store the text and the path of the file with the game, and all
    /// chunks with their vectors, in one transaction: the store takes all of
    /// it, or nothing.
    StoreRules,
    /// Remove the file that was written: the upload has failed.
    RemoveFile,
    /// Answer that the upload went well.
    Respond,
    /// Answer with the failure.
    Report,
}

/// How a step went.
#[derive(Debug)]
pub enum StepResult {
    /// It went well.
    Done,
    /// What was looked for is not there; with what to say of it.
    Missing(String),
    /// It failed; with the reason.
    Failed(String),
}

/// How a step went, as the contracts see it.
pub enum StepView {
    Done,
    Missing(Seq<char>),
    Failed(Seq<char>),
}

/// How a step went, as the contracts see it.
pub open spec fn step_view(result: StepResult) -> StepView {
    match result {
        StepResult::Done => StepView::Done,
        StepResult::Missing(what) => StepView::Missing(what@),
        StepResult::Failed(reason) => StepView::Failed(reason@),
    }
}

/// The stage after `stage` when its step went well.
pub open spec fn stage_after(stage: IngestStage) -> IngestStage {
    match stage {
        IngestStage::Received => IngestStage::Validated,
        IngestStage::Validated => IngestStage::GameFound,
        IngestStage::GameFound => IngestStage::FileSaved,
        IngestStage::FileSaved => IngestStage::TextExtracted,
        IngestStage::TextExtracted => IngestStage::Chunked,
        IngestStage::Chunked => IngestStage::Embedded,
        IngestStage::Embedded => IngestStage::Persisted,
        IngestStage::Persisted => IngestStage::Persisted,
        IngestStage::Failed => IngestStage::Failed,
    }
}

/// Whether the file is written once `stage` is reached.
pub open spec fn file_written(stage: IngestStage) -> bool {
    match stage {
        IngestStage::FileSaved
        | IngestStage::TextExtracted
        | IngestStage::Chunked
        | IngestStage::Embedded
        | IngestStage::Persisted => true,
        _ => false,
    }
}

/// Whether an upload at `stage` has ended.
pub open spec fn is_terminal(stage: IngestStage) -> bool {
    stage == IngestStage::Persisted || stage == IngestStage::Failed
}

/// The step that is run at `stage`.
pub open spec fn step_at(stage: IngestStage) -> IngestAction {
    match stage {
        IngestStage::Received => IngestAction::Validate,
        IngestStage::Validated => IngestAction::FindGame,
        IngestStage::GameFound => IngestAction::SaveFile,
        IngestStage::FileSaved => IngestAction::ExtractText,
        IngestStage::TextExtracted => IngestAction::ChunkText,
        IngestStage::Chunked => IngestAction::EmbedChunks,
        IngestStage::Embedded => IngestAction::StoreRules,
        IngestStage::Persisted => IngestAction::Respond,
        IngestStage::Failed => IngestAction::Report,
    }
}

/// The kind of failure that a step that did not go well at `stage` stands
/// for; `missing` tells that what was looked for is not there.
pub open spec fn failure_at(stage: IngestStage, missing: bool) -> IngestErrorKind {
    match stage {
        IngestStage::Received => IngestErrorKind::Validation,
        IngestStage::Validated => if missing {
            IngestErrorKind::NotFound
        } else {
            IngestErrorKind::Storage
        },
        IngestStage::GameFound => IngestErrorKind::FileSystem,
        IngestStage::FileSaved | IngestStage::TextExtracted => IngestErrorKind::Extraction,
        IngestStage::Chunked => IngestErrorKind::EmbeddingService,
        _ => IngestErrorKind::Storage,
    }
}

/// How a kind of failure looks to the one who sent the request.
pub open spec fn class_of(kind: IngestErrorKind) -> ErrorClass {
    match kind {
        IngestErrorKind::Validation => ErrorClass::BadInput,
        IngestErrorKind::NotFound => ErrorClass::NotFound,
        _ => ErrorClass::Internal,
    }
}

/// What is said of a kind of failure, without its reason.
pub open spec fn failure_text(kind: IngestErrorKind) -> Seq<char> {
    match kind {
        IngestErrorKind::Validation => "Upload rejected"@,
        IngestErrorKind::NotFound => "Not found"@,
        IngestErrorKind::Extraction => "Failed to extract PDF text"@,
        IngestErrorKind::EmbeddingService => "Failed to generate embeddings"@,
        IngestErrorKind::Storage => "Failed to store rules"@,
        IngestErrorKind::FileSystem => "Failed to save file"@,
    }
}

/// The failure that ended an upload.
#[derive(Debug)]
pub struct IngestError {
    pub kind: IngestErrorKind,
    pub reason: String,
}

/// What is written to the log about a failure: what failed and why.
pub open spec fn log_text(kind: IngestErrorKind, reason: Seq<char>) -> Seq<char> {
    failure_text(kind) + ": "@ + reason
}

/// What the one who sent the request is told about a failure: the reason
/// where the request itself is at fault, and only what failed where the
/// service is.
pub open spec fn user_text(kind: IngestErrorKind, reason: Seq<char>) -> Seq<char> {
    if class_of(kind) == ErrorClass::Internal {
        failure_text(kind)
    } else {
        reason
    }
}

/// What is wrong with an upload, if anything: it is empty, or it is no
/// PDF.
pub open spec fn upload_fault_text(bytes: Seq<u8>) -> Option<Seq<char>> {
    if bytes.len() == 0 {
        Some("No file data provided"@)
    } else if bytes.len() < 4 {
        Some("Invalid PDF file: File too small to be a valid PDF"@)
    } else if !has_pdf_magic(bytes) {
        Some("Invalid PDF file: File does not appear to be a valid PDF"@)
    } else {
        None
    }
}

/// What is said of a game that is not there.
pub open spec fn game_not_found_text(game_id: int) -> Seq<char> {
    "Game with id "@ + signed_decimal(game_id) + " not found"@
}

/// How validating an upload went: well if the bytes are a PDF, and else
/// with what is wrong with them.
pub fn validate_upload(bytes: &[u8]) -> (result: StepResult)
    ensures
        match upload_fault_text(bytes@) {
            Some(fault) => step_view(result) == StepView::Failed(fault),
            None => result is Done,
        },
{
    if bytes.len() == 0 {
        return StepResult::Failed(String::from_str("No file data provided"));
    }
    match validate_pdf_file(bytes) {
        Ok(()) => StepResult::Done,
        Err(e) => {
            let mut buf: Vec<char> = Vec::new();
            push_str(&mut buf, "Invalid PDF file: ");
            push_str(&mut buf, e.message().as_str());
            proof {
                reveal_strlit("Invalid PDF file: ");
                reveal_strlit("File too small to be a valid PDF");
                reveal_strlit("File does not appear to be a valid PDF");
                reveal_strlit("Invalid PDF file: File too small to be a valid PDF");
                reveal_strlit("Invalid PDF file: File does not appear to be a valid PDF");
                if bytes@.len() < 4 {
                    assert(buf@ =~= "Invalid PDF file: File too small to be a valid PDF"@);
                } else {
                    assert(buf@ =~= "Invalid PDF file: File does not appear to be a valid PDF"@);
                }
            }
            StepResult::Failed(string_of(buf.as_slice()))
        },
    }
}

/// What is said of a game that is not there.
pub fn game_not_found(game_id: i64) -> (out: String)
    ensures
        out@ == game_not_found_text(game_id as int),
{
    let mut buf: Vec<char> = Vec::new();
    push_str(&mut buf, "Game with id ");
    push_signed_decimal(&mut buf, game_id);
    push_str(&mut buf, " not found");
    assert(buf@ =~= game_not_found_text(game_id as int));
    string_of(buf.as_slice())
}

fn push_failure_text(buf: &mut Vec<char>, kind: IngestErrorKind)
    ensures
        final(buf)@ == old(buf)@ + failure_text(kind),
{
    match kind {
        IngestErrorKind::Validation => push_str(buf, "Upload rejected"),
        IngestErrorKind::NotFound => push_str(buf, "Not found"),
        IngestErrorKind::Extraction => push_str(buf, "Failed to extract PDF text"),
        IngestErrorKind::EmbeddingService => push_str(buf, "Failed to generate embeddings"),
        IngestErrorKind::Storage => push_str(buf, "Failed to store rules"),
        IngestErrorKind::FileSystem => push_str(buf, "Failed to save file"),
    }
}

impl IngestError {
    /// How the failure looks to the one who sent the request.
    pub fn class(&self) -> (class: ErrorClass)
        ensures
            class == class_of(self.kind),
    {
        match self.kind {
            IngestErrorKind::Validation => ErrorClass::BadInput,
            IngestErrorKind::NotFound => ErrorClass::NotFound,
            _ => ErrorClass::Internal,
        }
    }

    /// What is written to the log.
    pub fn log_message(&self) -> (out: String)
        ensures
            out@ == log_text(self.kind, self.reason@),
    {
        let mut buf: Vec<char> = Vec::new();
        push_failure_text(&mut buf, self.kind);
        push_str(&mut buf, ": ");
        push_str(&mut buf, self.reason.as_str());
        assert(buf@ =~= log_text(self.kind, self.reason@));
        string_of(buf.as_slice())
    }

    /// What the one who sent the request is told.
    pub fn user_message(&self) -> (out: String)
        ensures
            out@ == user_text(self.kind, self.reason@),
    {
        match self.class() {
            ErrorClass::Internal => {
                let mut buf: Vec<char> = Vec::new();
                push_failure_text(&mut buf, self.kind);
                assert(buf@ =~= failure_text(self.kind));
                string_of(buf.as_slice())
            },
            _ => self.reason.clone(),
        }
    }
}

/// An upload under way.
pub struct Ingestion {
    stage: IngestStage,
    cleanup_due: bool,
    error: Option<IngestError>,
}

/// An upload under way, as the contracts see it.
pub struct IngestionView {
    pub stage: IngestStage,
    /// The upload has failed and the file that it wrote is still there.
    pub cleanup_due: bool,
    /// What ended the upload, if it failed.
    pub error: Option<(IngestErrorKind, Seq<char>)>,
}

/// What is to be done next in the given state.
pub open spec fn action_in(v: IngestionView) -> IngestAction {
    if v.cleanup_due {
        IngestAction::RemoveFile
    } else {
        step_at(v.stage)
    }
}

/// The state after the pending step has gone as `result` tells.
pub open spec fn advanced(v: IngestionView, result: StepView) -> IngestionView {
    if v.cleanup_due {
        // the file is dealt with, whether removing it went well or not
        IngestionView { cleanup_due: false, ..v }
    } else if is_terminal(v.stage) {
        v
    } else {
        match result {
            StepView::Done => IngestionView { stage: stage_after(v.stage), ..v },
            StepView::Missing(what) => IngestionView {
                stage: IngestStage::Failed,
                cleanup_due: file_written(v.stage),
                error: Some((failure_at(v.stage, true), what)),
            },
            StepView::Failed(reason) => IngestionView {
                stage: IngestStage::Failed,
                cleanup_due: file_written(v.stage),
                error: Some((failure_at(v.stage, false), reason)),
            },
        }
    }
}

impl Ingestion {
    /// Whether the fields fit together: an error is held exactly by a failed
    /// upload, and only a failed upload has a file to remove.
    pub closed spec fn wf(&self) -> bool {
        &&& (self.stage == IngestStage::Failed) == (self.error is Some)
        &&& self.cleanup_due ==> self.stage == IngestStage::Failed
    }

    /// The upload as the contracts see it.
    pub closed spec fn view(&self) -> IngestionView {
        IngestionView {
            stage: self.stage,
            cleanup_due: self.cleanup_due,
            error: match self.error {
                Some(e) => Some((e.kind, e.reason@)),
                None => None,
            },
        }
    }

    /// An upload whose bytes have arrived.
    pub fn new() -> (r: Self)
        ensures
            r.wf(),
            r@ == (IngestionView { stage: IngestStage::Received, cleanup_due: false, error: None }),
    {
        Ingestion { stage: IngestStage::Received, cleanup_due: false, error: None }
    }

    /// How far the upload has come.
    pub fn stage(&self) -> (stage: IngestStage)
        ensures
            stage == self@.stage,
    {
        self.stage
    }

    /// What ended the upload, if it failed.
    pub fn error(&self) -> (e: Option<&IngestError>)
        requires
            self.wf(),
        ensures
            (e is Some) == (self@.stage == IngestStage::Failed),
            e matches Some(err) ==> self@.error == Some((err.kind, err.reason@)),
    {
        self.error.as_ref()
    }

    /// What to do next.
    pub fn next_action(&self) -> (action: IngestAction)
        ensures
            action == action_in(self@),
    {
        if self.cleanup_due {
            return IngestAction::RemoveFile;
        }
        match self.stage {
            IngestStage::Received => IngestAction::Validate,
            IngestStage::Validated => IngestAction::FindGame,
            IngestStage::GameFound => IngestAction::SaveFile,
            IngestStage::FileSaved => IngestAction::ExtractText,
            IngestStage::TextExtracted => IngestAction::ChunkText,
            IngestStage::Chunked => IngestAction::EmbedChunks,
            IngestStage::Embedded => IngestAction::StoreRules,
            IngestStage::Persisted => IngestAction::Respond,
            IngestStage::Failed => IngestAction::Report,
        }
    }

    /// Takes note of how the step that was asked for went.
    ///
    /// A step that went well leads to the next stage. One that did not ends
    /// the upload: the failure is kept, and if the file is written by then,
    /// removing it is what is asked for next, before the failure is
    /// reported. Once the file is removed, or once the upload has ended,
    /// nothing changes any more.
    pub fn advance(&mut self, result: StepResult)
        requires
            old(self).wf(),
        ensures
            final(self).wf(),
            final(self)@ == advanced(old(self)@, step_view(result)),
    {
        if self.cleanup_due {
            self.cleanup_due = false;
            return ;
        }
        let stage = self.stage;
        if stage == IngestStage::Persisted || stage == IngestStage::Failed {
            return ;
        }
        match result {
            StepResult::Done => {
                self.stage = next_stage(stage);
            },
            StepResult::Missing(what) => {
                self.error = Some(IngestError { kind: failure_kind(stage, true), reason: what });
                self.cleanup_due = has_file(stage);
                self.stage = IngestStage::Failed;
            },
            StepResult::Failed(reason) => {
                self.error = Some(IngestError { kind: failure_kind(stage, false), reason });
                self.cleanup_due = has_file(stage);
                self.stage = IngestStage::Failed;
            },
        }
    }
}

/// The stage after `stage` when its step went well.
pub fn next_stage(stage: IngestStage) -> (next: IngestStage)
    ensures
        next == stage_after(stage),
{
    match stage {
        IngestStage::Received => IngestStage::Validated,
        IngestStage::Validated => IngestStage::GameFound,
        IngestStage::GameFound => IngestStage::FileSaved,
        IngestStage::FileSaved => IngestStage::TextExtracted,
        IngestStage::TextExtracted => IngestStage::Chunked,
        IngestStage::Chunked => IngestStage::Embedded,
        IngestStage::Embedded => IngestStage::Persisted,
        IngestStage::Persisted => IngestStage::Persisted,
        IngestStage::Failed => IngestStage::Failed,
    }
}

/// Whether the file is written once `stage` is reached.
pub fn has_file(stage: IngestStage) -> (written: bool)
    ensures
        written == file_written(stage),
{
    match stage {
        IngestStage::FileSaved
        | IngestStage::TextExtracted
        | IngestStage::Chunked
        | IngestStage::Embedded
        | IngestStage::Persisted => true,
        _ => false,
    }
}

/// The kind of failure that a step that did not go well at `stage` stands
/// for.
pub fn failure_kind(stage: IngestStage, missing: bool) -> (kind: IngestErrorKind)
    ensures
        kind == failure_at(stage, missing),
{
    match stage {
        IngestStage::Received => IngestErrorKind::Validation,
        IngestStage::Validated => if missing {
            IngestErrorKind::NotFound
        } else {
            IngestErrorKind::Storage
        },
        IngestStage::GameFound => IngestErrorKind::FileSystem,
        IngestStage::FileSaved | IngestStage::TextExtracted => IngestErrorKind::Extraction,
        IngestStage::Chunked => IngestErrorKind::EmbeddingService,
        _ => IngestErrorKind::Storage,
    }
}

/// Whether a step went otherwise than well.
pub open spec fn is_failure(result: StepView) -> bool {
    !(result is Done)
}

/// A failure after the file is written asks for the file to be removed
/// before anything is reported, and a failure before that asks for the
/// report at once. Either way the upload has ended without success, and
/// once the file is dealt with the failure is reported.
pub proof fn lemma_failure_cleans_up(v: IngestionView, result: StepView, then: StepView)
    requires
        !v.cleanup_due,
        !is_terminal(v.stage),
        is_failure(result),
    ensures
        advanced(v, result).stage == IngestStage::Failed,
        file_written(v.stage) ==> action_in(advanced(v, result)) == IngestAction::RemoveFile,
        !file_written(v.stage) ==> action_in(advanced(v, result)) == IngestAction::Report,
        action_in(advanced(advanced(v, result), then)) == IngestAction::Report,
{
}

/// An upload that has ended stays as it is, once the file is dealt with.
pub proof fn lemma_terminal_stays(v: IngestionView, result: StepView)
    requires
        is_terminal(v.stage),
        !v.cleanup_due,
    ensures
        advanced(v, result) == v,
{
}

/// Nothing is stored before every chunk has its vector: the one step that
/// writes to the store is asked for only once all chunks are embedded. If
/// it goes well the upload has succeeded; if not, the upload has failed, the
/// file is removed next, and then the failure is reported.
pub proof fn lemma_store_comes_last(v: IngestionView, result: StepView, then: StepView)
    requires
        action_in(v) == IngestAction::StoreRules,
    ensures
        v.stage == IngestStage::Embedded,
        !v.cleanup_due,
        advanced(v, result).stage == IngestStage::Persisted <==> result is Done,
        is_failure(result) ==> {
            &&& advanced(v, result).stage == IngestStage::Failed
            &&& action_in(advanced(v, result)) == IngestAction::RemoveFile
            &&& action_in(advanced(advanced(v, result), then)) == IngestAction::Report
        },
{
}

/// The state after a run of steps that went as `results` tell, one after
/// the other.
pub open spec fn after_steps(v: IngestionView, results: Seq<StepView>) -> IngestionView
    decreases results.len(),
{
    if results.len() == 0 {
        v
    } else {
        advanced(after_steps(v, results.drop_last()), results.last())
    }
}

/// An upload is stored only when each of its seven steps went well: a
/// run from the start that is shorter, or in which a step went otherwise,
/// does not end in `Persisted`.
pub proof fn lemma_persisted_needs_all(results: Seq<StepView>)
    ensures
        ({
            let start = IngestionView {
                stage: IngestStage::Received,
                cleanup_due: false,
                error: None,
            };
            after_steps(start, results).stage == IngestStage::Persisted ==> results.len() >= 7
                && forall|k: int| 0 <= k < 7 ==> (#[trigger] results[k]) is Done
        }),
{
    let start = IngestionView { stage: IngestStage::Received, cleanup_due: false, error: None };
    lemma_steps_count(start, results);
}

/// What an upload has left outside: on disk and in the store.
pub struct Outside {
    /// The file that the upload wrote is there.
    pub file_saved: bool,
    /// The store holds the text, the path and the chunks of the upload.
    pub rules_stored: bool,
}

/// What is left outside once the step `action` has gone as `result` tells.
/// A step that fails leaves nothing of its own behind: the store takes a
/// transaction as a whole or not at all.
pub open spec fn outside_after(before: Outside, action: IngestAction, result: StepView) -> Outside {
    match action {
        IngestAction::SaveFile => Outside {
            file_saved: before.file_saved || result is Done,
            ..before
        },
        IngestAction::RemoveFile => Outside {
            file_saved: before.file_saved && !(result is Done),
            ..before
        },
        IngestAction::StoreRules => Outside {
            rules_stored: before.rules_stored || result is Done,
            ..before
        },
        _ => before,
    }
}

/// What is left outside after a run of steps from the state `v`, in which
/// each step that was asked for went as `results` tell.
pub open spec fn outside_after_steps(v: IngestionView, results: Seq<StepView>) -> Outside
    decreases results.len(),
{
    if results.len() == 0 {
        Outside { file_saved: false, rules_stored: false }
    } else {
        outside_after(
            outside_after_steps(v, results.drop_last()),
            action_in(after_steps(v, results.drop_last())),
            results.last(),
        )
    }
}

/// Whether every removal of the file that was asked for in the run went
/// well.
pub open spec fn removals_went_well(v: IngestionView, results: Seq<StepView>) -> bool
    decreases results.len(),
{
    results.len() == 0 || (removals_went_well(v, results.drop_last()) && (action_in(
        after_steps(v, results.drop_last()),
    ) == IngestAction::RemoveFile ==> results.last() is Done))
}

/// A failed upload leaves nothing behind. However the steps of an upload
/// go: when the failure is to be reported, the store holds nothing of the
/// upload, neither chunks nor a record of the file, and the file is gone
/// unless removing it failed; and when success is to be answered, the file
/// is there and the store holds the upload.
pub proof fn lemma_failure_leaves_nothing(results: Seq<StepView>)
    ensures
        ({
            let start = IngestionView {
                stage: IngestStage::Received,
                cleanup_due: false,
                error: None,
            };
            let end = after_steps(start, results);
            let outside = outside_after_steps(start, results);
            &&& action_in(end) == IngestAction::Report ==> !outside.rules_stored && (
            removals_went_well(start, results) ==> !outside.file_saved)
            &&& action_in(end) == IngestAction::Respond ==> outside.rules_stored
                && outside.file_saved
            &&& outside.rules_stored ==> end.stage == IngestStage::Persisted
        }),
{
    let start = IngestionView { stage: IngestStage::Received, cleanup_due: false, error: None };
    lemma_outside_follows(start, results);
}

proof fn lemma_outside_follows(start: IngestionView, results: Seq<StepView>)
    requires
        start.stage == IngestStage::Received,
        !start.cleanup_due,
    ensures
        ({
            let end = after_steps(start, results);
            let outside = outside_after_steps(start, results);
            &&& outside.rules_stored == (end.stage == IngestStage::Persisted)
            &&& end.stage != IngestStage::Failed ==> !end.cleanup_due && outside.file_saved
                == file_written(end.stage)
            &&& end.stage == IngestStage::Failed && !end.cleanup_due && removals_went_well(
                start,
                results,
            ) ==> !outside.file_saved
        }),
    decreases results.len(),
{
    if results.len() > 0 {
        lemma_outside_follows(start, results.drop_last());
    }
}

/// The number of the stage in the order of the steps.
pub open spec fn stage_number(stage: IngestStage) -> int {
    match stage {
        IngestStage::Received => 0,
        IngestStage::Validated => 1,
        IngestStage::GameFound => 2,
        IngestStage::FileSaved => 3,
        IngestStage::TextExtracted => 4,
        IngestStage::Chunked => 5,
        IngestStage::Embedded => 6,
        IngestStage::Persisted => 7,
        IngestStage::Failed => 8,
    }
}

proof fn lemma_steps_count(start: IngestionView, results: Seq<StepView>)
    requires
        start.stage == IngestStage::Received,
        !start.cleanup_due,
    ensures
        ({
            let end = after_steps(start, results);
            &&& end.stage != IngestStage::Failed ==> !end.cleanup_due && stage_number(end.stage)
                <= results.len() && forall|k: int|
                0 <= k < stage_number(end.stage) ==> (#[trigger] results[k]) is Done
            &&& end.stage != IngestStage::Failed && end.stage != IngestStage::Persisted
                ==> stage_number(end.stage) == results.len()
        }),
    decreases results.len(),
{
    if results.len() > 0 {
        let head = results.drop_last();
        lemma_steps_count(start, head);
        let before = after_steps(start, head);
        let end = after_steps(start, results);
        if end.stage != IngestStage::Failed {
            assert forall|k: int| 0 <= k < stage_number(end.stage) implies (
            #[trigger] results[k]) is Done by {
                if k < stage_number(before.stage) {
                    assert(head[k] == results[k]);
                }
            }
        }
    }
}

} // verus!
