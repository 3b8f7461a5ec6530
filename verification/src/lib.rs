//! Ingestion and retrieval for answering questions over local documents.
//!
//! Text is cut into overlapping chunks that know where they came from,
//! chunks are grouped into collections by the path of their file, and what
//! several collections answer to a search is merged into the passages that
//! a prompt is built around. Reading files and talking to the embedding,
//! generation and storage services is left to the caller.

pub mod chat;
pub mod chroma;
pub mod chromadb;
pub mod document;
pub mod embedding;
pub mod error;
pub mod file;
pub mod json;
pub mod llm;
pub mod ollama;
pub mod query;
pub mod report;
pub mod strings;
pub mod utils;

pub use error::AppError;
pub use file::{DocumentChunk, DocumentMetadata};
