//! A client core for OpenAI-compatible chat completion streams: assembly of
//! server-sent events from body chunks, decoding of those events, the retry
//! policy, and the decisions of the stream worker.

pub mod config;
pub mod errors;
pub mod frame;
pub mod http;
pub mod json;
pub mod models;
pub mod stream;
pub mod text;
