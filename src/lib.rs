//! Hybrid semantic search over chat transcripts: chat parsing, lexical
//! features, top-k selection and the in-memory chunk index.
pub mod text;
pub mod chat;
pub mod rank;
pub mod order;
pub mod index;
pub mod encoder;
