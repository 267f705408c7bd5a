//! The retrieval core of a service that answers questions about the rules of
//! tabletop games.
//!
//! A rule book is brought into a normal form, cut into sentences and
//! gathered into chunks that overlap ([`pdf`]). Each chunk is stored with a
//! vector; a question is rewritten to lie closer to the wording of rule
//! books ([`handlers::chat`]), and the stored chunks are ranked by their
//! similarity to it ([`db::embeddings`]). The steps that reach outside (the
//! embedding service, the store, the file system) are run by the caller;
//! what is decided around them is decided here ([`embeddings`],
//! [`handlers::upload`], [`llm`]).
//!
//! Text is handled as sequences of characters ([`text`]), and numbers with a
//! fraction never enter: a similarity stands as an integer key that orders
//! as the number does, a vector as the bit patterns of its components.

pub mod db;
pub mod embeddings;
pub mod handlers;
pub mod llm;
pub mod models;
pub mod pdf;
pub mod pdf_processor;
pub mod text;
