//! Translating long documents with a language model, chunk by chunk.
//!
//! A document is cut into groups of lines (`chunker`), each chunk is sent to
//! the model between tags and the answer is taken out of the reply
//! (`orchestrator`, a state machine that a driver runs against the model and
//! the output), and the clients are described by plain settings (`model` for
//! a local server, `gemma` for the cloud).

pub mod chunker;
pub mod gemma;
pub mod model;
pub mod orchestrator;
pub mod text;

pub use model::{DobbiKovModels, OllamaModel, OllamaModelBuilder};
