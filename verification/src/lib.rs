//! The logic of a small chat client for a streaming language-model API.

pub mod api;
pub mod config;
pub mod error;
pub mod history;
pub mod refusal;
pub mod reply;
pub mod sse;
pub mod stream;
pub mod text;
pub mod ui;
pub mod utf8;
