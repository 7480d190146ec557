//! The core of a chat client for models that are served in the way of OpenAI: the turn of a
//! conversation with its rounds of tool calls, the stream of a reply, the requests, the
//! memory that is kept in Markdown files, attachments, and what a turn costs.
//!
//! Nothing here reads a file or the network. Where something has to be read, run or stored,
//! the caller does it, and hands in what came of it.

pub mod attachments;
pub mod clock;
pub mod config;
pub mod db;
pub mod digits;
pub mod entries;
pub mod ids;
pub mod json;
pub mod keyed;
pub mod memory;
pub mod models;
pub mod naming;
pub mod pricing;
pub mod request;
pub mod retry;
pub mod round;
pub mod secrets;
pub mod shell;
pub mod sse;
pub mod stream;
pub mod text;
pub mod tools;
pub mod turn;
pub mod usage;
